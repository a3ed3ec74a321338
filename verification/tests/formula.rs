use oo_spreadsheet::address::CellAddress;
use oo_spreadsheet::dependency::{
    CellModel, FormulaDependencyEdge, FormulaDependencyIndex, SheetModel, SpreadsheetModel,
    DUPLICATE_CELL_POSITION, DUPLICATE_SHEET_ID,
};
use oo_spreadsheet::refs::FormulaDependencyError;

fn cell(row: u32, column: u32, formula: &str) -> CellModel {
    CellModel {
        row,
        column,
        formula: Some(formula.into()),
        ..CellModel::default()
    }
}

fn address(sheet: &str, row: u32, column: u32) -> CellAddress {
    CellAddress {
        sheet_id: sheet.into(),
        row,
        column,
    }
}

fn one_sheet(cells: Vec<CellModel>) -> SpreadsheetModel {
    SpreadsheetModel {
        sheets: vec![SheetModel {
            id: "sheet-1".into(),
            name: "Sheet 1".into(),
            cells,
            ..SheetModel::default()
        }],
    }
}

fn model() -> SpreadsheetModel {
    SpreadsheetModel {
        sheets: vec![
            SheetModel {
                id: "sheet-1".into(),
                name: "Sheet 1".into(),
                cells: vec![cell(0, 0, "=B1 + 'Sheet 2'!$C$3"), cell(0, 1, "=A1")],
                ..SheetModel::default()
            },
            SheetModel {
                id: "sheet-2".into(),
                name: "Sheet 2".into(),
                cells: vec![cell(2, 2, "=SUM('Sheet 1'!A1:B2)")],
                ..SheetModel::default()
            },
        ],
    }
}

#[test]
fn parses_absolute_sheet_and_range_references() {
    let index = FormulaDependencyIndex::from_model(&model()).unwrap();
    let formula = CellAddress {
        sheet_id: "sheet-1".into(),
        row: 0,
        column: 0,
    };
    assert_eq!(
        index.dependencies_of(&formula),
        vec![
            CellAddress {
                sheet_id: "sheet-1".into(),
                row: 0,
                column: 1
            },
            CellAddress {
                sheet_id: "sheet-2".into(),
                row: 2,
                column: 2
            },
        ]
    );
    let range_formula = CellAddress {
        sheet_id: "sheet-2".into(),
        row: 2,
        column: 2,
    };
    assert_eq!(index.dependencies_of(&range_formula).len(), 4);
}

#[test]
fn parses_lowercase_a1_references() {
    let model = one_sheet(vec![cell(1, 1, "=a1")]);
    let index = FormulaDependencyIndex::from_model(&model).unwrap();
    assert_eq!(
        index.dependencies_of(&CellAddress {
            sheet_id: "sheet-1".into(),
            row: 1,
            column: 1,
        }),
        vec![CellAddress {
            sheet_id: "sheet-1".into(),
            row: 0,
            column: 0,
        }]
    );
}

#[test]
fn reverse_closure_returns_bounded_topology_and_order() {
    let index = FormulaDependencyIndex::from_model(&one_sheet(vec![cell(0, 0, "=B1")])).unwrap();
    let source = CellAddress {
        sheet_id: "sheet-1".into(),
        row: 0,
        column: 1,
    };
    let topology = index.affected_topology(std::slice::from_ref(&source));
    assert!(!topology.cyclic);
    assert!(topology.nodes.contains(&source));
    assert_eq!(topology.nodes.len(), 2);
    assert_eq!(topology.edges.len(), 1);
    assert!(topology.topological_order.is_some());
}

#[test]
fn cycles_are_detected_without_mutating_model() {
    let model = one_sheet(vec![cell(0, 0, "=B1"), cell(0, 1, "=A1")]);
    let index = FormulaDependencyIndex::from_model(&model).unwrap();
    assert!(index.has_cycle());
    assert_eq!(index.cycles().len(), 1);
    let topology = index.affected_topology(&[CellAddress {
        sheet_id: "sheet-1".into(),
        row: 0,
        column: 0,
    }]);
    assert!(topology.cyclic);
    assert!(topology.topological_order.is_none());
}

#[test]
fn quoted_literals_and_unknown_sheet_are_not_dependencies() {
    let model = one_sheet(vec![cell(0, 0, r#"=\"A99\" + Unknown!A1 + A2"#)]);
    let index = FormulaDependencyIndex::from_model(&model).unwrap();
    assert_eq!(
        index.dependencies_of(&CellAddress {
            sheet_id: "sheet-1".into(),
            row: 0,
            column: 0
        }),
        vec![CellAddress {
            sheet_id: "sheet-1".into(),
            row: 1,
            column: 0
        }]
    );
}

#[test]
fn oversized_ranges_fail_at_derived_index_boundary() {
    let model = one_sheet(vec![cell(0, 0, "=A1:XFD100000")]);
    assert!(matches!(
        FormulaDependencyIndex::from_model(&model),
        Err(FormulaDependencyError::RangeTooLarge(_))
    ));
}

#[test]
fn update_replaces_only_changed_formula_edges() {
    let mut model = one_sheet(vec![cell(0, 0, "=B1"), cell(0, 1, "=C1"), cell(0, 2, "=1")]);
    let mut index = FormulaDependencyIndex::from_model(&model).unwrap();
    model.sheets[0].cells[0].formula = Some("=C1".into());
    let changed = CellAddress {
        sheet_id: "sheet-1".into(),
        row: 0,
        column: 0,
    };
    let affected = index
        .update(&model, std::slice::from_ref(&changed))
        .unwrap();
    assert!(affected.nodes.contains(&changed));
    assert!(index
        .dependents_of(&CellAddress {
            sheet_id: "sheet-1".into(),
            row: 0,
            column: 1
        })
        .is_empty());
    assert_eq!(
        index.dependencies_of(&changed),
        vec![CellAddress {
            sheet_id: "sheet-1".into(),
            row: 0,
            column: 2
        }]
    );
}

#[test]
fn formula_cells_and_dependents_are_inverse_views() {
    let index = FormulaDependencyIndex::from_model(&model()).unwrap();
    assert_eq!(
        index.formula_cells(),
        vec![address("sheet-1", 0, 0), address("sheet-1", 0, 1), address("sheet-2", 2, 2)]
    );
    assert_eq!(
        index.dependents_of(&address("sheet-1", 0, 0)),
        vec![address("sheet-1", 0, 1), address("sheet-2", 2, 2)]
    );
    assert_eq!(index.dependents_of(&address("sheet-1", 5, 5)), Vec::<CellAddress>::new());
    assert_eq!(index.dependencies_of(&address("sheet-1", 5, 5)), Vec::<CellAddress>::new());
}

#[test]
fn ambiguous_sheet_names_are_rejected() {
    let model = SpreadsheetModel {
        sheets: vec![
            SheetModel {
                id: "a".into(),
                name: "Data".into(),
                cells: vec![],
                ..SheetModel::default()
            },
            SheetModel {
                id: "b".into(),
                name: " data ".into(),
                cells: vec![],
                ..SheetModel::default()
            },
        ],
    };
    assert_eq!(
        FormulaDependencyIndex::from_model(&model),
        Err(FormulaDependencyError::AmbiguousSheetName("data".into()))
    );
}

#[test]
fn duplicate_formula_cells_are_rejected() {
    let model = one_sheet(vec![cell(0, 0, "=B1"), cell(0, 0, "=C1")]);
    assert_eq!(
        FormulaDependencyIndex::from_model(&model),
        Err(FormulaDependencyError::Schema(DUPLICATE_CELL_POSITION.into()))
    );
}

#[test]
fn duplicate_sheet_ids_are_rejected_by_the_schema_check() {
    let sheet = SheetModel { id: "s".into(), name: "S".into(), ..SheetModel::default() };
    let other = SheetModel { id: "s".into(), name: "T".into(), ..SheetModel::default() };
    let model = SpreadsheetModel { sheets: vec![sheet, other] };
    assert_eq!(
        FormulaDependencyIndex::from_model(&model),
        Err(FormulaDependencyError::Schema(DUPLICATE_SHEET_ID.into()))
    );
}

#[test]
fn affected_topology_orders_a_chain_least_ready_first() {
    // A1 reads B1, C1 reads A1, B2 reads B1: changing B1 reaches all three.
    let model = one_sheet(vec![cell(0, 0, "=B1"), cell(0, 2, "=A1"), cell(1, 1, "=B1")]);
    let index = FormulaDependencyIndex::from_model(&model).unwrap();
    let topology = index.affected_topology(&[address("sheet-1", 0, 1)]);
    assert!(!topology.cyclic);
    assert_eq!(
        topology.nodes,
        vec![
            address("sheet-1", 0, 0),
            address("sheet-1", 0, 1),
            address("sheet-1", 0, 2),
            address("sheet-1", 1, 1)
        ]
    );
    assert_eq!(
        topology.edges,
        vec![
            FormulaDependencyEdge {
                source: address("sheet-1", 0, 0),
                dependent: address("sheet-1", 0, 2)
            },
            FormulaDependencyEdge {
                source: address("sheet-1", 0, 1),
                dependent: address("sheet-1", 0, 0)
            },
            FormulaDependencyEdge {
                source: address("sheet-1", 0, 1),
                dependent: address("sheet-1", 1, 1)
            },
        ]
    );
    assert_eq!(
        topology.topological_order,
        Some(vec![
            address("sheet-1", 0, 1),
            address("sheet-1", 0, 0),
            address("sheet-1", 0, 2),
            address("sheet-1", 1, 1)
        ])
    );
}

#[test]
fn self_reference_is_a_cycle_of_one_cell() {
    let index = FormulaDependencyIndex::from_model(&one_sheet(vec![cell(0, 0, "=A1+1"), cell(3, 0, "=B9")])).unwrap();
    assert!(index.has_cycle());
    assert_eq!(index.cycles(), vec![vec![address("sheet-1", 0, 0)]]);
}

#[test]
fn cycle_detection_follows_the_graph() {
    let index = FormulaDependencyIndex::from_model(&model()).unwrap();
    assert!(index.has_cycle());
    let chain = FormulaDependencyIndex::from_model(&one_sheet(vec![cell(0, 0, "=B1"), cell(0, 1, "=C1")])).unwrap();
    assert!(!chain.has_cycle());
    assert!(chain.cycles().is_empty());
}

#[test]
fn update_reports_oversized_range_of_changed_cell() {
    let mut model = one_sheet(vec![cell(0, 0, "=B1")]);
    let mut index = FormulaDependencyIndex::from_model(&model).unwrap();
    model.sheets[0].cells[0].formula = Some("=A1:XFD100000".into());
    let result = index.update(&model, &[address("sheet-1", 0, 0)]);
    assert!(matches!(result, Err(FormulaDependencyError::RangeTooLarge(_))));
    assert!(index.dependencies_of(&address("sheet-1", 0, 0)).is_empty());
    assert!(index.formula_cells().is_empty());
}

#[test]
fn update_keeps_readers_of_changed_cell_in_closure() {
    let mut model = one_sheet(vec![cell(0, 0, "=B1"), cell(0, 1, "=C1")]);
    let mut index = FormulaDependencyIndex::from_model(&model).unwrap();
    model.sheets[0].cells[1].formula = Some("=D1".into());
    let affected = index.update(&model, &[address("sheet-1", 0, 1)]).unwrap();
    assert_eq!(affected.nodes, vec![address("sheet-1", 0, 0), address("sheet-1", 0, 1)]);
    assert_eq!(index.dependencies_of(&address("sheet-1", 0, 1)), vec![address("sheet-1", 0, 3)]);
    assert!(index.dependents_of(&address("sheet-1", 0, 2)).is_empty());
}

#[test]
fn each_cyclic_part_is_listed_once_in_address_order() {
    let model = one_sheet(vec![
        cell(0, 0, "=B1"),
        cell(0, 1, "=C1"),
        cell(0, 2, "=A1"),
        cell(2, 0, "=A3"),
        cell(4, 0, "=A1+A6"),
        cell(5, 0, "=A5"),
    ]);
    let index = FormulaDependencyIndex::from_model(&model).unwrap();
    let mut parts = index.cycles();
    parts.sort();
    assert_eq!(
        parts,
        vec![
            vec![address("sheet-1", 0, 0), address("sheet-1", 0, 1), address("sheet-1", 0, 2)],
            vec![address("sheet-1", 2, 0)],
            vec![address("sheet-1", 4, 0), address("sheet-1", 5, 0)],
        ]
    );
    assert!(index.has_cycle());
}

#[test]
fn an_acyclic_graph_lists_no_cycles() {
    let model = one_sheet(vec![cell(0, 0, "=B1+C1"), cell(0, 1, "=C1"), cell(0, 2, "=D1")]);
    let index = FormulaDependencyIndex::from_model(&model).unwrap();
    assert!(index.cycles().is_empty());
    assert!(!index.has_cycle());
}
