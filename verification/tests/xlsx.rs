use std::collections::HashMap;

use oo_spreadsheet::grid::GridRange;
use oo_spreadsheet::xlsx::{
    append_cell_text, builtin_num_format, builtin_num_format_id, column_name, content_types_xml,
    is_rgb_color, normalize_target, parse_a1, parse_range_ref, range_ref, require_part, resolve_shared_formula,
    root_relationships_xml, shared_strings_xml, translate_shared_formula, unsupported_reason,
    workbook_relationships_xml, workbook_unsupported_parts, worksheet_unsupported_parts,
    xml_escape, CellTextField, RawCell, XlsxError, XlsxLossReport, XlsxSemanticDiff,
    XlsxUnsupportedPart,
};

#[test]
fn a1_references_round_trip_through_column_names() {
    assert_eq!(parse_a1("A1").unwrap(), (0, 0));
    assert_eq!(parse_a1("xfd3").unwrap(), (2, 16_383));
    assert_eq!(parse_a1("AA10").unwrap(), (9, 26));
    assert!(matches!(parse_a1("A0"), Err(XlsxError::InvalidCellReference(r)) if r == "A0"));
    assert!(matches!(parse_a1("12"), Err(XlsxError::InvalidCellReference(_))));
    assert!(matches!(parse_a1("B2C"), Err(XlsxError::InvalidCellReference(_))));
    assert!(matches!(parse_a1("A4294967297"), Err(XlsxError::InvalidCellReference(_))));
    assert_eq!(column_name(0), "A");
    assert_eq!(column_name(25), "Z");
    assert_eq!(column_name(26), "AA");
    assert_eq!(column_name(16_383), "XFD");
    for column in [0u32, 1, 25, 26, 701, 702, 16_383] {
        let text = format!("{}{}", column_name(column), 7);
        assert_eq!(parse_a1(&text).unwrap(), (6, column));
    }
}

#[test]
fn shared_formula_moves_relative_axes_only() {
    assert_eq!(translate_shared_formula("A1+$B$2+C$3+$D4", 2, 1), "B3+$B$2+D$3+$D6");
    assert_eq!(translate_shared_formula("\"A1\"&A1", 1, 0), "\"A1\"&A2");
    assert_eq!(translate_shared_formula("SUM(A1:B2)", 0, 1), "SUM(B1:C2)");
    assert_eq!(translate_shared_formula("Sheet1!A1", 1, 1), "Sheet1!B2");
    assert_eq!(translate_shared_formula("LOG10(A1)", 1, 0), "LOG10(A2)");
    assert_eq!(translate_shared_formula("A2-A1", -1, 0), "A1-#REF!");
}

#[test]
fn shared_formula_anchor_and_follower_resolve() {
    let mut shared = HashMap::new();
    let mut anchor = RawCell {
        reference: Some("B2".into()),
        formula_type: Some("shared".into()),
        formula_index: Some(0),
        formula: Some("A1*2".into()),
        ..RawCell::default()
    };
    resolve_shared_formula(&mut anchor, &mut shared).unwrap();
    assert_eq!(anchor.formula_type.as_deref(), Some("normal"));
    assert_eq!(anchor.formula.as_deref(), Some("A1*2"));
    let mut follower = RawCell {
        reference: Some("B4".into()),
        formula_type: Some("shared".into()),
        formula_index: Some(0),
        ..RawCell::default()
    };
    resolve_shared_formula(&mut follower, &mut shared).unwrap();
    assert_eq!(follower.formula.as_deref(), Some("A3*2"));
    let mut unknown = RawCell {
        reference: Some("C4".into()),
        formula_type: Some("shared".into()),
        formula_index: Some(7),
        ..RawCell::default()
    };
    assert!(matches!(
        resolve_shared_formula(&mut unknown, &mut shared),
        Err(XlsxError::InvalidPart(m)) if m == "shared formula C4 引用未知 si=7"
    ));
    let mut plain = RawCell {
        reference: Some("C4".into()),
        formula: Some("1+1".into()),
        ..RawCell::default()
    };
    resolve_shared_formula(&mut plain, &mut shared).unwrap();
    assert_eq!(plain.formula_type, None);
}

#[test]
fn cell_text_events_append_to_the_open_field() {
    let mut current = Some(RawCell::default());
    append_cell_text(&mut current, Some(CellTextField::Formula), "SUM(");
    append_cell_text(&mut current, Some(CellTextField::Formula), "A1)");
    append_cell_text(&mut current, Some(CellTextField::Value), "3");
    append_cell_text(&mut current, Some(CellTextField::Inline), "hi");
    append_cell_text(&mut current, None, "ignored");
    let cell = current.unwrap();
    assert_eq!(cell.formula.as_deref(), Some("SUM(A1)"));
    assert_eq!(cell.value.as_deref(), Some("3"));
    assert_eq!(cell.inline_value, "hi");
    let mut closed: Option<RawCell> = None;
    append_cell_text(&mut closed, Some(CellTextField::Value), "x");
    assert!(closed.is_none());
}

#[test]
fn xml_text_is_escaped() {
    assert_eq!(xml_escape("a<b & 'c' > \"d\""), "a&lt;b &amp; &apos;c&apos; &gt; &quot;d&quot;");
    assert_eq!(xml_escape("plain"), "plain");
}

#[test]
fn number_formats_map_both_ways() {
    for id in [0u32, 1, 2, 9, 10, 14, 20, 21, 22] {
        assert_eq!(builtin_num_format_id(builtin_num_format(id)), Some(id));
    }
    assert_eq!(builtin_num_format(3), "");
    assert_eq!(builtin_num_format_id("0.000"), None);
}

#[test]
fn rgb_colors_allow_leading_hashes() {
    assert!(is_rgb_color("#1a2B3c"));
    assert!(is_rgb_color("##ffffff"));
    assert!(is_rgb_color("000000"));
    assert!(!is_rgb_color("#fffff"));
    assert!(!is_rgb_color("#gggggg"));
    assert!(!is_rgb_color("#ffffff0"));
}

#[test]
fn required_parts_and_targets() {
    let parts = vec!["[Content_Types].xml".to_string(), "xl/workbook.xml".to_string()];
    assert!(require_part(&parts, "xl/workbook.xml").is_ok());
    assert!(matches!(require_part(&parts, "_rels/.rels"), Err(XlsxError::MissingPart("_rels/.rels"))));
    assert_eq!(normalize_target("worksheets/sheet1.xml").unwrap(), "xl/worksheets/sheet1.xml");
    assert_eq!(normalize_target("/xl/worksheets/sheet2.xml").unwrap(), "xl/worksheets/sheet2.xml");
    assert_eq!(normalize_target("\\xl\\media\\a.png").unwrap(), "xl/media/a.png");
    assert!(matches!(
        normalize_target("../secret.xml"),
        Err(XlsxError::InvalidPart(m)) if m == "关系目标路径 xl/../secret.xml 不安全"
    ));
    assert!(matches!(normalize_target("worksheets//a.xml"), Err(XlsxError::InvalidPart(_))));
    assert!(matches!(normalize_target("worksheets/"), Err(XlsxError::InvalidPart(_))));
}

#[test]
fn unsupported_parts_get_reasons() {
    assert_eq!(unsupported_reason("xl/media/image1.png"), "media/drawing semantics are not modeled");
    assert_eq!(unsupported_reason("xl/charts/chart1.xml"), "chart semantics are not modeled");
    assert_eq!(
        unsupported_reason("xl/vbaProject.bin"),
        "VBA macros and macro sheets are not modeled and will never be executed"
    );
    assert_eq!(unsupported_reason("xl/pivotTables/p1.xml"), "pivot table semantics are not modeled");
    assert_eq!(unsupported_reason("xl/comments1.xml"), "comment semantics are not modeled");
    assert_eq!(unsupported_reason("docProps/app.xml"), "package part is not modeled");
    let workbook = workbook_unsupported_parts(b"<workbook><externalReferences/></workbook>");
    assert_eq!(
        workbook,
        vec![XlsxUnsupportedPart {
            part: "xl/workbook.xml#externalReferences".into(),
            reason: "external workbook references are not modeled".into()
        }]
    );
    assert!(workbook_unsupported_parts(b"<workbook/>").is_empty());
    let sheet = worksheet_unsupported_parts(
        "xl/worksheets/sheet1.xml",
        b"<worksheet><hyperlinks/><drawing r:id=\"x\"/><c><f t=\"array\">A1</f></c></worksheet>",
    );
    let reasons: Vec<&str> = sheet.iter().map(|p| p.reason.as_str()).collect();
    assert_eq!(
        reasons,
        vec![
            "worksheet drawings/images are not imported",
            "worksheet hyperlinks are not modeled",
            "array-formula spill semantics are not modeled; only the anchor formula is retained"
        ]
    );
    assert!(sheet.iter().all(|p| p.part == "xl/worksheets/sheet1.xml"));
}

#[test]
fn package_xml_lists_sheets_and_optional_parts() {
    let types = content_types_xml(2, true, false);
    assert!(types.contains("/xl/worksheets/sheet1.xml"));
    assert!(types.contains("/xl/worksheets/sheet2.xml"));
    assert!(!types.contains("/xl/worksheets/sheet3.xml"));
    assert!(types.contains("sharedStrings"));
    assert!(!types.contains("styles"));
    assert!(types.ends_with("</Types>"));
    let rels = workbook_relationships_xml(2, true, true);
    assert!(rels.contains("<Relationship Id=\"rId2\" Type=\"http://schemas.openxmlformats.org/officeDocument/2006/relationships/worksheet\" Target=\"worksheets/sheet2.xml\"/>"));
    assert!(rels.contains("Id=\"rId3\" Type=\"http://schemas.openxmlformats.org/officeDocument/2006/relationships/sharedStrings\""));
    assert!(rels.contains("Id=\"rId4\" Type=\"http://schemas.openxmlformats.org/officeDocument/2006/relationships/styles\""));
    assert!(root_relationships_xml().contains("Target=\"xl/workbook.xml\""));
    let sst = shared_strings_xml(&vec![" lead".to_string(), "a&b".to_string()]);
    assert!(sst.contains("count=\"2\" uniqueCount=\"2\""));
    assert!(sst.contains("<si><t xml:space=\"preserve\"> lead</t></si><si><t>a&amp;b</t></si></sst>"));
}

#[test]
fn loss_report_and_diff_flags() {
    assert!(XlsxLossReport::default().is_lossless());
    let report = XlsxLossReport {
        unsupported: vec![XlsxUnsupportedPart {
            part: "p".into(),
            reason: "r".into(),
        }],
    };
    assert!(!report.is_lossless());
    assert!(XlsxSemanticDiff::default().is_equivalent());
    assert!(!XlsxSemanticDiff {
        differences: vec!["x".into()]
    }
    .is_equivalent());
}

#[test]
fn range_references_print_and_read_back_with_corners_in_either_order() {
    let range = GridRange { start_row: 0, end_row: 9, start_column: 1, end_column: 27 };
    assert_eq!(range_ref(range), "B1:AB10");
    assert_eq!(parse_range_ref("AB10:B1").unwrap(), Some(range));
    assert_eq!(parse_range_ref("B1:AB10").unwrap(), Some(range));
    assert_eq!(
        parse_range_ref("C3").unwrap(),
        Some(GridRange { start_row: 2, end_row: 2, start_column: 2, end_column: 2 })
    );
    assert_eq!(parse_range_ref("").unwrap(), None);
    assert_eq!(parse_range_ref("A1:").unwrap(), None);
    assert!(matches!(
        parse_range_ref("A1:B2:C3"),
        Err(XlsxError::InvalidPart(message)) if message == "范围引用无效：A1:B2:C3"
    ));
    assert!(matches!(
        parse_range_ref("A1:2B"),
        Err(XlsxError::InvalidCellReference(reference)) if reference == "2B"
    ));
}

#[test]
fn shared_formula_expands_sheet_qualified_and_absolute_references() {
    let mut shared = HashMap::new();
    let mut anchor = RawCell {
        reference: Some("A1".into()),
        formula_type: Some("shared".into()),
        formula_index: Some(0),
        formula: Some("SUM(Sheet1!A2,$B$2)".into()),
        ..RawCell::default()
    };
    resolve_shared_formula(&mut anchor, &mut shared).unwrap();
    assert_eq!(anchor.formula.as_deref(), Some("SUM(Sheet1!A2,$B$2)"));
    let mut follower = RawCell {
        reference: Some("A2".into()),
        formula_type: Some("shared".into()),
        formula_index: Some(0),
        ..RawCell::default()
    };
    resolve_shared_formula(&mut follower, &mut shared).unwrap();
    assert_eq!(follower.formula.as_deref(), Some("SUM(Sheet1!A3,$B$2)"));
}

#[test]
fn shared_formula_is_expanded_with_relative_and_absolute_axes() {
    let mut shared = HashMap::new();
    let mut anchor = RawCell {
        reference: Some("A1".into()),
        formula_type: Some("shared".into()),
        formula_index: Some(0),
        formula: Some("SUM(Sheet1!A2,$B$2)".into()),
        ..RawCell::default()
    };
    resolve_shared_formula(&mut anchor, &mut shared).unwrap();
    assert_eq!(anchor.formula.as_deref(), Some("SUM(Sheet1!A2,$B$2)"));
    let mut follower = RawCell {
        reference: Some("A2".into()),
        formula_type: Some("shared".into()),
        formula_index: Some(0),
        ..RawCell::default()
    };
    resolve_shared_formula(&mut follower, &mut shared).unwrap();
    assert_eq!(follower.formula.as_deref(), Some("SUM(Sheet1!A3,$B$2)"));
}
