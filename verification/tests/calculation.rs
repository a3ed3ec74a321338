use oo_spreadsheet::a1::Reference;
use oo_spreadsheet::address::CellAddress;
use oo_spreadsheet::calculation::{first_arg, materialized_addresses, second_arg, Calculator};
use oo_spreadsheet::dependency::{CellModel, SheetModel, SpreadsheetModel};
use oo_spreadsheet::parser::{Expr, FormulaCalculationError};

fn cell(row: u32, column: u32) -> CellModel {
    CellModel { row, column, formula: None, ..CellModel::default() }
}

fn sheet(id: &str, name: &str, cells: Vec<CellModel>) -> SheetModel {
    SheetModel { id: id.into(), name: name.into(), cells, ..SheetModel::default() }
}

fn address(sheet: &str, row: u32, column: u32) -> CellAddress {
    CellAddress { sheet_id: sheet.into(), row, column }
}

fn workbook() -> SpreadsheetModel {
    SpreadsheetModel {
        sheets: vec![
            sheet("s1", "Data", vec![cell(0, 0), cell(0, 2), cell(3, 1)]),
            sheet("s2", "Summary", vec![cell(5, 5), cell(1, 1)]),
        ],
    }
}

#[test]
fn materialized_addresses_list_cells_sheet_by_sheet() {
    assert_eq!(
        materialized_addresses(&workbook()),
        vec![
            address("s1", 0, 0),
            address("s1", 0, 2),
            address("s1", 3, 1),
            address("s2", 5, 5),
            address("s2", 1, 1),
        ]
    );
}

#[test]
fn a_sheet_name_claimed_by_two_sheets_is_refused() {
    let model = SpreadsheetModel {
        sheets: vec![sheet("a", "Shared", vec![]), sheet("b", " shared ", vec![])],
    };
    match Calculator::new(&model) {
        Err(FormulaCalculationError::UnknownSheet { cell, sheet }) => {
            assert_eq!(cell, address("b", 0, 0));
            assert_eq!(sheet, "shared");
        }
        _ => panic!("expected an ambiguous sheet name"),
    }
}

#[test]
fn cells_are_found_in_sorted_and_unsorted_sheets() {
    let model = workbook();
    let calculator = Calculator::new(&model).ok().unwrap();
    assert_eq!(calculator.cell_at(&address("s1", 3, 1)), Some(&cell(3, 1)));
    assert_eq!(calculator.cell_at(&address("s1", 1, 1)), None);
    assert_eq!(calculator.cell_at(&address("s2", 1, 1)), Some(&cell(1, 1)));
    assert_eq!(calculator.cell_at(&address("s3", 0, 0)), None);
}

#[test]
fn references_resolve_through_sheet_names_and_must_exist() {
    let model = workbook();
    let calculator = Calculator::new(&model).ok().unwrap();
    let current = address("s1", 9, 9);
    let summary = Reference { sheet: Some(" SUMMARY".into()), row: 1, column: 1 };
    assert_eq!(calculator.resolve_reference(&current, &summary), Ok(address("s2", 1, 1)));
    let local = Reference { sheet: None, row: 0, column: 2 };
    assert_eq!(calculator.resolve_reference(&current, &local), Ok(address("s1", 0, 2)));
    let empty = Reference { sheet: None, row: 7, column: 7 };
    assert_eq!(calculator.resolve_coordinate(&current, &empty), Ok(address("s1", 7, 7)));
    assert_eq!(
        calculator.resolve_reference(&current, &empty),
        Err(FormulaCalculationError::UnknownReference {
            cell: current.clone(),
            reference: address("s1", 7, 7)
        })
    );
    let missing = Reference { sheet: Some("Nowhere".into()), row: 0, column: 0 };
    assert_eq!(
        calculator.resolve_coordinate(&current, &missing),
        Err(FormulaCalculationError::UnknownSheet { cell: current.clone(), sheet: "Nowhere".into() })
    );
}

#[test]
fn missing_arguments_are_type_mismatches() {
    let args = vec![Expr::Number("1".into())];
    assert_eq!(first_arg(&args), Ok(&Expr::Number("1".into())));
    assert_eq!(
        second_arg(&args),
        Err(FormulaCalculationError::TypeMismatch {
            cell: address("", 0, 0),
            operation: "缺少第二个参数".into()
        })
    );
    assert_eq!(
        first_arg(&[]),
        Err(FormulaCalculationError::TypeMismatch { cell: address("", 0, 0), operation: "缺少参数".into() })
    );
}
