use oo_spreadsheet::editing::ClearRangeMode;
use oo_spreadsheet::grid::GridRange;
use oo_spreadsheet::cells::CellValue;
use oo_spreadsheet::commands::{SpreadsheetCommand, FREEZE_ROWS_EXCEED};
use oo_spreadsheet::dependency::{CellModel, FreezePane, SheetModel, SpreadsheetModel};
use oo_spreadsheet::dependency::DUPLICATE_CELL_POSITION;
use oo_spreadsheet::engine::{SpreadsheetCommandBatch, SpreadsheetEngine};
use oo_spreadsheet::sheet_edits::SpreadsheetEngineError;

fn cell(row: u32, column: u32, text: &str) -> CellModel {
    CellModel { row, column, value: Some(CellValue::Text(text.into())), ..CellModel::default() }
}

fn workbook() -> SpreadsheetModel {
    SpreadsheetModel {
        sheets: vec![SheetModel {
            id: "sheet-1".into(),
            name: "Sheet 1".into(),
            cells: vec![cell(0, 0, "a")],
            ..SheetModel::default()
        }],
    }
}

fn set(row: u32, column: u32, text: &str) -> SpreadsheetCommand {
    SpreadsheetCommand::SetCell {
        sheet_id: "sheet-1".into(),
        row,
        column,
        value: Some(CellValue::Text(text.into())),
        formula: None,
        attrs: Vec::new(),
    }
}

fn batch(base_revision: u64, commands: Vec<SpreadsheetCommand>) -> SpreadsheetCommandBatch {
    SpreadsheetCommandBatch { base_revision, commands }
}

#[test]
fn execute_undo_and_redo_move_between_revisions() {
    let mut engine = SpreadsheetEngine::new(workbook(), 7).unwrap();
    assert!(!engine.can_undo());
    let change = engine.execute(batch(7, vec![set(0, 0, "A"), set(2, 1, "new")])).unwrap();
    assert_eq!(change.revision, 8);
    assert_eq!(change.mutations.len(), 2);
    assert_eq!(engine.model().sheets[0].cells, vec![cell(0, 0, "A"), cell(2, 1, "new")]);
    let undone = engine.undo().unwrap();
    assert_eq!(undone.revision, 9);
    assert_eq!(undone.mutations, vec![change.mutations[1].inverse(), change.mutations[0].inverse()]);
    assert_eq!(engine.model(), &workbook());
    assert!(engine.can_redo());
    let redone = engine.redo().unwrap();
    assert_eq!(redone.revision, 10);
    assert_eq!(redone.mutations, change.mutations);
    assert_eq!(engine.model().sheets[0].cells, vec![cell(0, 0, "A"), cell(2, 1, "new")]);
    assert_eq!(engine.redo(), Err(SpreadsheetEngineError::NothingToRedo));
}

#[test]
fn a_refused_command_undoes_the_batch_before_it() {
    let mut engine = SpreadsheetEngine::new(workbook(), 0).unwrap();
    assert_eq!(engine.execute(batch(0, Vec::new())), Err(SpreadsheetEngineError::EmptyCommandBatch));
    assert_eq!(
        engine.execute(batch(3, vec![set(1, 1, "x")])),
        Err(SpreadsheetEngineError::RevisionConflict { expected: 0, actual: 3 })
    );
    let refused = batch(
        0,
        vec![
            set(1, 1, "x"),
            SpreadsheetCommand::SetRowDimensions { sheet_id: "sheet-1".into(), rows: Some(10) },
            SpreadsheetCommand::SetFreezePane { sheet_id: "sheet-1".into(), rows: 20, columns: 0 },
        ],
    );
    assert_eq!(
        engine.execute(refused),
        Err(SpreadsheetEngineError::InvalidMutation(FREEZE_ROWS_EXCEED.into()))
    );
    assert_eq!(engine.model(), &workbook());
    assert_eq!(engine.revision(), 0);
    assert_eq!(engine.undo(), Err(SpreadsheetEngineError::NothingToUndo));
    assert_eq!(engine.execute(batch(0, vec![set(0, 0, "a")])), Err(SpreadsheetEngineError::NoChanges));
}

#[test]
fn sheet_commands_create_rename_and_delete() {
    let mut engine = SpreadsheetEngine::new(workbook(), 0).unwrap();
    engine
        .execute(batch(0, vec![SpreadsheetCommand::CreateSheet { id: "sheet-2".into(), name: "Two".into() }]))
        .unwrap();
    assert_eq!(engine.model().sheets[1].id, "sheet-2");
    assert_eq!(
        engine.execute(batch(1, vec![SpreadsheetCommand::CreateSheet { id: "sheet-2".into(), name: "x".into() }])),
        Err(SpreadsheetEngineError::DuplicateSheet("sheet-2".into()))
    );
    assert_eq!(
        engine.execute(batch(1, vec![SpreadsheetCommand::RenameSheet { sheet_id: "sheet-2".into(), name: "  ".into() }])),
        Err(SpreadsheetEngineError::EmptySheetIdentity)
    );
    engine
        .execute(batch(1, vec![SpreadsheetCommand::RenameSheet { sheet_id: "sheet-2".into(), name: "Zwei".into() }]))
        .unwrap();
    assert_eq!(engine.model().sheets[1].name, "Zwei");
    engine.execute(batch(2, vec![SpreadsheetCommand::DeleteSheet { sheet_id: "sheet-1".into() }])).unwrap();
    assert_eq!(engine.model().sheets.len(), 1);
    engine.undo().unwrap();
    engine.undo().unwrap();
    engine.undo().unwrap();
    assert_eq!(engine.model(), &workbook());
}

#[test]
fn cell_commands_keep_style_and_clear() {
    let mut engine = SpreadsheetEngine::new(workbook(), 0).unwrap();
    engine
        .execute(batch(
            0,
            vec![SpreadsheetCommand::SetCellStyle { sheet_id: "sheet-1".into(), row: 3, column: 3, style: Some("{}".into()) }],
        ))
        .unwrap();
    engine.execute(batch(1, vec![set(3, 3, "v")])).unwrap();
    assert_eq!(engine.model().sheets[0].cells[1].style.as_deref(), Some("{}"));
    engine
        .execute(batch(2, vec![SpreadsheetCommand::ClearCell { sheet_id: "sheet-1".into(), row: 3, column: 3 }]))
        .unwrap();
    assert_eq!(engine.model().sheets[0].cells.len(), 1);
    let blank_formula = SpreadsheetCommand::SetCell {
        sheet_id: "sheet-1".into(),
        row: 9,
        column: 9,
        value: None,
        formula: Some("  ".into()),
        attrs: Vec::new(),
    };
    assert_eq!(engine.execute(batch(3, vec![blank_formula])), Err(SpreadsheetEngineError::NoChanges));
    engine
        .execute(batch(3, vec![SpreadsheetCommand::SetFreezePane { sheet_id: "sheet-1".into(), rows: 1, columns: 2 }]))
        .unwrap();
    assert_eq!(engine.model().sheets[0].metadata.freeze, FreezePane { rows: 1, columns: 2 });
    assert_eq!(
        engine.execute(batch(4, vec![SpreadsheetCommand::SetColumnDimensions { sheet_id: "x".into(), columns: None }])),
        Err(SpreadsheetEngineError::MissingSheet("x".into()))
    );
}

#[test]
fn engines_order_cells_and_refuse_repeats_and_overflowing_revisions() {
    let mut model = workbook();
    model.sheets[0].cells = vec![cell(2, 0, "b"), cell(1, 0, "a")];
    let engine = SpreadsheetEngine::new(model.clone(), 0).unwrap();
    assert_eq!(engine.model().sheets[0].cells, vec![cell(1, 0, "a"), cell(2, 0, "b")]);
    model.sheets[0].cells.push(cell(1, 0, "again"));
    assert_eq!(
        SpreadsheetEngine::new(model, 0).err(),
        Some(SpreadsheetEngineError::Schema(DUPLICATE_CELL_POSITION.into()))
    );
    let mut full = SpreadsheetEngine::new(workbook(), u64::MAX).unwrap();
    assert_eq!(full.execute(batch(u64::MAX, vec![set(1, 1, "x")])), Err(SpreadsheetEngineError::RevisionOverflow));
}

#[test]
fn clear_range_modes_split_contents_and_formats() {
    let styled = CellModel { style: Some("{\"bold\":true}".into()), ..cell(1, 1, "b") };
    let mut model = workbook();
    model.sheets[0].cells.push(styled.clone());
    model.sheets[0].cells.push(cell(5, 5, "outside"));
    let range = GridRange { start_row: 0, end_row: 2, start_column: 0, end_column: 2 };
    let clear = |mode| SpreadsheetCommand::ClearRange { sheet_id: "sheet-1".into(), range, mode };

    let mut engine = SpreadsheetEngine::new(model.clone(), 0).unwrap();
    engine.execute(batch(0, vec![clear(ClearRangeMode::Contents)])).unwrap();
    assert_eq!(
        engine.model().sheets[0].cells,
        vec![CellModel { value: None, ..styled.clone() }, cell(5, 5, "outside")]
    );

    let mut engine = SpreadsheetEngine::new(model.clone(), 0).unwrap();
    engine.execute(batch(0, vec![clear(ClearRangeMode::Formats)])).unwrap();
    assert_eq!(engine.model().sheets[0].cells, vec![cell(0, 0, "a"), cell(1, 1, "b"), cell(5, 5, "outside")]);

    let mut engine = SpreadsheetEngine::new(model.clone(), 0).unwrap();
    let change = engine.execute(batch(0, vec![clear(ClearRangeMode::All)])).unwrap();
    assert_eq!(change.mutations.len(), 1);
    assert_eq!(engine.model().sheets[0].cells, vec![cell(5, 5, "outside")]);
    engine.undo().unwrap();
    assert_eq!(engine.model(), &model);
    let reversed = GridRange { start_row: 3, end_row: 1, start_column: 0, end_column: 0 };
    assert_eq!(
        engine.execute(batch(2, vec![SpreadsheetCommand::ClearRange { sheet_id: "sheet-1".into(), range: reversed, mode: ClearRangeMode::All }])),
        Err(SpreadsheetEngineError::InvalidMutation(oo_spreadsheet::commands::CLEAR_RANGE_REVERSED.into()))
    );
}

fn empty_engine() -> SpreadsheetEngine {
    SpreadsheetEngine::new(
        SpreadsheetModel {
            sheets: vec![SheetModel { id: "sheet-1".into(), name: "Sheet 1".into(), cells: Vec::new(), ..SheetModel::default() }],
        },
        0,
    )
    .unwrap()
}

fn write(row: u32, column: u32, value: Option<CellValue>, formula: Option<&str>) -> SpreadsheetCommand {
    SpreadsheetCommand::SetCell {
        sheet_id: "sheet-1".into(),
        row,
        column,
        value,
        formula: formula.map(|f| f.to_string()),
        attrs: Vec::new(),
    }
}

fn entity_ids(change: &oo_spreadsheet::engine::SpreadsheetChangeSet) -> Vec<String> {
    change.invalidation.changed_entities.iter().map(|entity| entity.entity_id.clone()).collect()
}

#[test]
fn sparse_grid_returns_local_invalidation_and_reversible_mutation() {
    let mut engine = empty_engine();
    let result = engine
        .execute(batch(0, vec![write(4, 2, Some(CellValue::Text("hello".into())), None)]))
        .unwrap();
    assert_eq!(result.revision, 1);
    assert_eq!(result.invalidation.changed_entities.len(), 1);
    assert_eq!(result.invalidation.changed_entities[0].entity_type, "spreadsheet.cell");
    assert_eq!(result.invalidation.changed_entities[0].entity_id, "sheet-1:4:2");
    assert_eq!(engine.model().sheets[0].cells.len(), 1);
    assert_eq!(result.mutations.len(), 1);

    let undo = engine.undo().unwrap();
    assert_eq!(undo.revision, 2);
    assert!(engine.model().sheets[0].cells.is_empty());
    assert!(engine.can_redo());
    engine.redo().unwrap();
    assert_eq!(engine.model().sheets[0].cells[0].row, 4);
}

#[test]
fn failed_batch_rolls_back_without_snapshot_clone_api() {
    let mut engine = empty_engine();
    let error = engine
        .execute(batch(
            0,
            vec![
                SpreadsheetCommand::CreateSheet { id: "sheet-2".into(), name: "Sheet 2".into() },
                SpreadsheetCommand::RenameSheet { sheet_id: "missing".into(), name: "bad".into() },
            ],
        ))
        .unwrap_err();
    assert!(matches!(error, SpreadsheetEngineError::MissingSheet(_)));
    assert_eq!(engine.revision(), 0);
    assert_eq!(engine.model().sheets.len(), 1);
}

#[test]
fn empty_cell_is_not_materialized_in_sparse_grid() {
    let mut engine = empty_engine();
    let result = engine.execute(batch(0, vec![write(0, 0, None, Some("   "))])).unwrap_err();
    assert!(matches!(result, SpreadsheetEngineError::NoChanges));
    assert!(engine.model().sheets[0].cells.is_empty());
}

#[test]
fn styling_an_empty_cell_materializes_a_blank_styled_cell() {
    let mut engine = empty_engine();
    let style = "{\"numberFormat\":\"0.00\"}".to_string();
    engine
        .execute(batch(
            0,
            vec![SpreadsheetCommand::SetCellStyle { sheet_id: "sheet-1".into(), row: 0, column: 1, style: Some(style.clone()) }],
        ))
        .unwrap();
    let cell = &engine.model().sheets[0].cells[0];
    assert_eq!(cell.row, 0);
    assert_eq!(cell.column, 1);
    assert!(cell.value.is_none());
    assert!(cell.formula.is_none());
    assert_eq!(cell.style, Some(style));
}

#[test]
fn duplicate_coordinates_are_rejected_by_schema() {
    let model = SpreadsheetModel {
        sheets: vec![SheetModel {
            id: "sheet-1".into(),
            name: "Sheet 1".into(),
            cells: vec![CellModel { row: 0, column: 0, ..CellModel::default() }, CellModel { row: 0, column: 0, ..CellModel::default() }],
            ..SheetModel::default()
        }],
    };
    assert!(matches!(SpreadsheetEngine::new(model, 0), Err(SpreadsheetEngineError::Schema(_))));
}

#[test]
fn set_cell_invalidation_includes_dependent_formula_cells() {
    let mut engine = empty_engine();
    engine.execute(batch(0, vec![write(0, 1, None, Some("=A1 + 1"))])).unwrap();
    let result = engine.execute(batch(1, vec![write(0, 0, Some(CellValue::Number("5".into())), None)])).unwrap();
    let ids = entity_ids(&result);
    assert!(ids.contains(&"sheet-1:0:0".to_string()), "written cell");
    assert!(ids.contains(&"sheet-1:0:1".to_string()), "dependent formula");

    let undo = engine.undo().unwrap();
    let undo_ids = entity_ids(&undo);
    assert!(undo_ids.contains(&"sheet-1:0:0".to_string()));
    assert!(undo_ids.contains(&"sheet-1:0:1".to_string()));
}

#[test]
fn editing_values_formulas_and_blank_content_preserves_cell_style() {
    let style = "{\"numberFormat\":\"0.00%\"}".to_string();
    let mut engine = SpreadsheetEngine::new(
        SpreadsheetModel {
            sheets: vec![SheetModel {
                id: "sheet-1".into(),
                name: "Sheet 1".into(),
                cells: vec![CellModel {
                    row: 0,
                    column: 0,
                    value: Some(CellValue::Number("0.1".into())),
                    style: Some(style.clone()),
                    ..CellModel::default()
                }],
                metadata: oo_spreadsheet::dependency::SheetMetadata {
                    row_count: Some(10),
                    column_count: Some(10),
                    ..Default::default()
                },
                merged_ranges: Vec::new(),
            }],
        },
        0,
    )
    .unwrap();
    for (revision, value, formula) in [
        (0, Some(CellValue::Number("0.2".into())), None),
        (1, None, Some("=SUM(1,2)".to_string())),
        (2, None, None),
    ] {
        engine
            .execute(batch(
                revision,
                vec![SpreadsheetCommand::SetCell {
                    sheet_id: "sheet-1".into(),
                    row: 0,
                    column: 0,
                    value: value.clone(),
                    formula: formula.clone(),
                    attrs: Vec::new(),
                }],
            ))
            .unwrap();
        let cell = &engine.model().sheets[0].cells[0];
        assert_eq!(cell.style, Some(style.clone()));
        assert_eq!(cell.value, value);
        assert_eq!(cell.formula, formula);
    }
    engine.undo().unwrap();
    assert_eq!(engine.model().sheets[0].cells[0].formula.as_deref(), Some("=SUM(1,2)"));
    assert_eq!(engine.model().sheets[0].cells[0].style, Some(style));
}

#[test]
fn dimension_commands_reject_freeze_conflicts_and_support_none_reset() {
    let mut engine = empty_engine();
    engine
        .execute(batch(
            0,
            vec![
                SpreadsheetCommand::SetFreezePane { sheet_id: "sheet-1".into(), rows: 3, columns: 2 },
                SpreadsheetCommand::SetRowDimensions { sheet_id: "sheet-1".into(), rows: Some(50) },
                SpreadsheetCommand::SetColumnDimensions { sheet_id: "sheet-1".into(), columns: Some(20) },
            ],
        ))
        .unwrap();
    let conflict = engine
        .execute(batch(1, vec![SpreadsheetCommand::SetRowDimensions { sheet_id: "sheet-1".into(), rows: Some(2) }]))
        .unwrap_err();
    assert!(matches!(conflict, SpreadsheetEngineError::InvalidMutation(_)));
    let conflict = engine
        .execute(batch(1, vec![SpreadsheetCommand::SetColumnDimensions { sheet_id: "sheet-1".into(), columns: Some(1) }]))
        .unwrap_err();
    assert!(matches!(conflict, SpreadsheetEngineError::InvalidMutation(_)));
    assert_eq!(engine.model().sheets[0].metadata.row_count, Some(50));
    engine
        .execute(batch(1, vec![SpreadsheetCommand::SetRowDimensions { sheet_id: "sheet-1".into(), rows: None }]))
        .unwrap();
    assert_eq!(engine.model().sheets[0].metadata.row_count, None);
}

#[test]
fn invalidation_names_sheets_ranges_and_structure() {
    let mut engine = SpreadsheetEngine::new(workbook(), 0).unwrap();
    let change = engine
        .execute(batch(
            0,
            vec![
                SpreadsheetCommand::CreateSheet { id: "sheet-2".into(), name: "Sheet 2".into() },
                SpreadsheetCommand::ClearRange {
                    sheet_id: "sheet-1".into(),
                    range: GridRange { start_row: 0, end_row: 3, start_column: 0, end_column: 1 },
                    mode: ClearRangeMode::All,
                },
                set(9, 9, "x"),
            ],
        ))
        .unwrap();
    let entities: Vec<(String, String)> = change
        .invalidation
        .changed_entities
        .iter()
        .map(|e| (e.entity_type.clone(), e.entity_id.clone()))
        .collect();
    assert_eq!(
        entities,
        vec![
            ("spreadsheet.cell".to_string(), "sheet-1:9:9".to_string()),
            ("spreadsheet.range".to_string(), "sheet-1:0:0:3:1".to_string()),
        ]
    );
    let sheets: Vec<String> = change.invalidation.changed_containers.iter().map(|e| e.entity_id.clone()).collect();
    assert_eq!(sheets, vec!["sheet-1".to_string(), "sheet-2".to_string()]);
    assert!(change.invalidation.changed_containers.iter().all(|e| e.entity_type == "spreadsheet.sheet"));
    assert!(change.invalidation.structure_changed);
}

fn engine_with(cells: Vec<CellModel>) -> SpreadsheetEngine {
    SpreadsheetEngine::new(
        SpreadsheetModel {
            sheets: vec![SheetModel {
                id: "sheet-1".into(),
                name: "Sheet 1".into(),
                cells,
                metadata: oo_spreadsheet::dependency::SheetMetadata {
                    row_count: Some(10),
                    column_count: Some(10),
                    ..Default::default()
                },
                merged_ranges: Vec::new(),
            }],
        },
        0,
    )
    .unwrap()
}

#[test]
fn merge_cells_drops_non_anchor_content_and_is_reversible() {
    let mut engine = engine_with(vec![cell(0, 0, "anchor"), cell(0, 1, "drop"), cell(1, 0, "drop"), cell(1, 1, "drop")]);
    let merged = engine
        .execute(batch(
            0,
            vec![SpreadsheetCommand::MergeCells {
                sheet_id: "sheet-1".into(),
                range: GridRange { start_row: 0, start_column: 0, end_row: 1, end_column: 1 },
            }],
        ))
        .unwrap();
    let sheet = &engine.model().sheets[0];
    assert_eq!(sheet.cells.len(), 1, "non-anchor content is dropped");
    assert_eq!(sheet.cells[0].value, Some(CellValue::Text("anchor".into())));
    assert_eq!(sheet.merged_ranges.len(), 1);
    assert!(merged.invalidation.structure_changed);
    assert_eq!(merged.invalidation.changed_containers[0].entity_id, "sheet-1");

    let undone = engine.undo().unwrap();
    assert!(!undone.invalidation.structure_changed);
    let sheet = &engine.model().sheets[0];
    assert_eq!(sheet.cells.len(), 4, "undo restores every cell");
    assert!(sheet.merged_ranges.is_empty());
}

#[test]
fn overlapping_merge_is_rejected_and_unmerge_requires_exact_match() {
    let mut engine = empty_engine();
    engine
        .execute(batch(
            0,
            vec![SpreadsheetCommand::MergeCells {
                sheet_id: "sheet-1".into(),
                range: GridRange { start_row: 0, start_column: 0, end_row: 1, end_column: 1 },
            }],
        ))
        .unwrap();
    let overlap = engine
        .execute(batch(
            1,
            vec![SpreadsheetCommand::MergeCells {
                sheet_id: "sheet-1".into(),
                range: GridRange { start_row: 1, start_column: 1, end_row: 2, end_column: 2 },
            }],
        ))
        .unwrap_err();
    assert!(matches!(overlap, SpreadsheetEngineError::MergeOverlap));

    let inexact = engine
        .execute(batch(
            1,
            vec![SpreadsheetCommand::UnmergeCells {
                sheet_id: "sheet-1".into(),
                range: GridRange { start_row: 0, start_column: 0, end_row: 1, end_column: 2 },
            }],
        ))
        .unwrap_err();
    assert!(matches!(inexact, SpreadsheetEngineError::MergeUnknown));

    let exact = SpreadsheetCommand::UnmergeCells {
        sheet_id: "sheet-1".into(),
        range: GridRange { start_row: 0, start_column: 0, end_row: 1, end_column: 1 },
    };
    engine.execute(batch(1, vec![exact])).unwrap();
    assert!(engine.model().sheets[0].merged_ranges.is_empty());
}

#[test]
fn merged_regions_stay_sorted_and_reversed_regions_are_refused() {
    let mut engine = empty_engine();
    let region = |sr: u32, sc: u32, er: u32, ec: u32| GridRange { start_row: sr, start_column: sc, end_row: er, end_column: ec };
    for (revision, range) in [(0, region(5, 0, 6, 1)), (1, region(0, 3, 1, 4)), (2, region(0, 0, 1, 1))] {
        engine
            .execute(batch(revision, vec![SpreadsheetCommand::MergeCells { sheet_id: "sheet-1".into(), range }]))
            .unwrap();
    }
    assert_eq!(engine.model().sheets[0].merged_ranges, vec![region(0, 0, 1, 1), region(0, 3, 1, 4), region(5, 0, 6, 1)]);
    let reversed = engine
        .execute(batch(3, vec![SpreadsheetCommand::MergeCells { sheet_id: "sheet-1".into(), range: region(4, 0, 3, 0) }]))
        .unwrap_err();
    assert!(matches!(reversed, SpreadsheetEngineError::InvalidMutation(_)));
}
