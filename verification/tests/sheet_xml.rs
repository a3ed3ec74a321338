use oo_spreadsheet::cells::CellValue;
use oo_spreadsheet::dependency::{CellModel, FreezePane, SheetMetadata, SheetModel, SpreadsheetModel};
use oo_spreadsheet::sheet_xml::{workbook_xml, worksheet_xml, WORKBOOK_HEAD, WORKSHEET_HEAD};
use oo_spreadsheet::xlsx::XlsxError;

fn sheet(cells: Vec<CellModel>, metadata: SheetMetadata) -> SheetModel {
    SheetModel { id: "s".into(), name: "S".into(), cells, metadata, merged_ranges: Vec::new() }
}

#[test]
fn worksheet_writes_size_pane_and_rows_in_order() {
    let cells = vec![
        CellModel { row: 1, column: 0, value: Some(CellValue::Text("b".into())), ..CellModel::default() },
        CellModel {
            row: 0,
            column: 1,
            value: Some(CellValue::Number("2.5".into())),
            formula: Some("==A1*2".into()),
            style: Some("{}".into()),
            ..CellModel::default()
        },
        CellModel { row: 0, column: 0, value: Some(CellValue::Bool(true)), ..CellModel::default() },
    ];
    let metadata = SheetMetadata { freeze: FreezePane { rows: 1, columns: 0 }, row_count: Some(3), column_count: Some(2) };
    let xml = worksheet_xml(&sheet(cells, metadata), &vec!["a".into(), "b".into()], &vec![("{}".into(), 3)]).unwrap();
    let expected = format!(
        "{}{}{}{}",
        WORKSHEET_HEAD,
        "<dimension ref=\"A1:B3\"/>",
        "<sheetViews><sheetView workbookViewId=\"0\"><pane ySplit=\"1\" topLeftCell=\"A2\" state=\"frozen\"/></sheetView></sheetViews>",
        "<sheetData><row r=\"1\"><c r=\"B1\" s=\"3\"><f>A1*2</f><v>2.5</v></c><c r=\"A1\" t=\"b\"><v>1</v></c></row><row r=\"2\"><c r=\"A2\" t=\"s\"><v>1</v></c></row></sheetData></worksheet>",
    );
    assert_eq!(xml, expected);
}

#[test]
fn worksheet_refuses_unregistered_plain_text_and_inlines_formula_text() {
    let plain = vec![CellModel { row: 0, column: 0, value: Some(CellValue::Text("zz".into())), ..CellModel::default() }];
    assert_eq!(
        worksheet_xml(&sheet(plain, SheetMetadata::default()), &Vec::new(), &Vec::new()),
        Err(XlsxError::InvalidPart("shared string 未登记".into()))
    );
    let computed = vec![CellModel {
        row: 0,
        column: 2,
        value: Some(CellValue::Text("a<b".into())),
        formula: Some("=1".into()),
        style: Some("unlisted".into()),
        ..CellModel::default()
    }];
    let xml = worksheet_xml(&sheet(computed, SheetMetadata::default()), &Vec::new(), &Vec::new()).unwrap();
    assert_eq!(
        xml,
        format!("{}<sheetData><row r=\"1\"><c r=\"C1\" t=\"str\"><f>1</f><v>a&lt;b</v></c></row></sheetData></worksheet>", WORKSHEET_HEAD)
    );
}

#[test]
fn workbook_lists_sheets_in_order() {
    let model = SpreadsheetModel {
        sheets: vec![sheet(Vec::new(), SheetMetadata::default()), SheetModel { name: "S&1".into(), ..sheet(Vec::new(), SheetMetadata::default()) }],
    };
    assert_eq!(
        workbook_xml(&model),
        format!(
            "{}<sheet name=\"S\" sheetId=\"1\" r:id=\"rId1\" /><sheet name=\"S&amp;1\" sheetId=\"2\" r:id=\"rId2\" /></sheets></workbook>",
            WORKBOOK_HEAD
        )
    );
}

#[test]
fn worksheet_lists_merged_regions_after_the_cells() {
    let mut s = sheet(Vec::new(), SheetMetadata::default());
    s.merged_ranges = vec![oo_spreadsheet::grid::GridRange { start_row: 0, end_row: 1, start_column: 0, end_column: 27 }];
    let xml = worksheet_xml(&s, &Vec::new(), &Vec::new()).unwrap();
    assert_eq!(
        xml,
        format!("{}<sheetData></sheetData><mergeCells count=\"1\"><mergeCell ref=\"A1:AB2\"/></mergeCells></worksheet>", WORKSHEET_HEAD)
    );
}
