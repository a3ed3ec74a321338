use oo_spreadsheet::a1::{looks_like_reference, parse_reference, Reference};
use oo_spreadsheet::dates::{civil_from_days, days_from_civil, normalize_sheet};
use oo_spreadsheet::editing::{ClearRangeMode, SpreadsheetPasteMode};
use oo_spreadsheet::evaluation::Lexer;
use oo_spreadsheet::formatting::RangeRowPattern;
use oo_spreadsheet::grid::{inside_range, range_cell_count, ranges_overlap, GridRange, GridViewport, ViewportError};
use oo_spreadsheet::remap::{
    remap_dimension, remap_freeze, remap_grid_range, remap_position, remap_range_bounds, RemapOp,
    SheetAxis,
};
use oo_spreadsheet::sheet_name::normalize_sheet_name;

#[test]
fn rejects_empty_window() {
    assert_eq!(GridViewport::new(0, 0, 0, 1), Err(ViewportError::EmptyRange));
    assert_eq!(GridViewport::new(0, 1, 3, 3), Err(ViewportError::EmptyRange));
    let viewport = GridViewport::new(0, 2, 1, 4).unwrap();
    assert!(viewport.contains(1, 3));
    assert!(!viewport.contains(2, 3));
    assert!(!viewport.contains(0, 0));
    assert_eq!(viewport.cell_count(), 6);
}

#[test]
fn references_parse_with_absolute_markers() {
    assert!(!looks_like_reference("$AB$7"));
    assert!(looks_like_reference("$$AB7"));
    assert!(looks_like_reference("b2"));
    assert!(!looks_like_reference("ABCDE1"));
    assert!(!looks_like_reference("SUM"));
    assert_eq!(
        parse_reference("$AB$7", None),
        Some(Reference {
            sheet: None,
            row: 6,
            column: 27
        })
    );
    assert_eq!(
        parse_reference("c3", Some("Data".into())),
        Some(Reference {
            sheet: Some("Data".into()),
            row: 2,
            column: 2
        })
    );
    assert_eq!(parse_reference("A0", None), None);
}

#[test]
fn insert_then_delete_restores_positions() {
    let insert = RemapOp::Insert(3, 2);
    let delete = RemapOp::Delete(3, 2);
    for position in [0u32, 2, 3, 7] {
        let moved = remap_position(position, insert).unwrap();
        assert_eq!(remap_position(moved, delete), Some(position));
    }
    assert_eq!(remap_position(4, delete), None);
    assert_eq!(remap_position(5, delete), Some(3));
}

#[test]
fn range_bounds_follow_structural_edits() {
    assert_eq!(remap_range_bounds(2, 6, RemapOp::Insert(4, 3)), Some((2, 9)));
    assert_eq!(remap_range_bounds(2, 6, RemapOp::Delete(3, 2)), Some((2, 4)));
    assert_eq!(remap_range_bounds(3, 4, RemapOp::Delete(3, 2)), None);
    assert_eq!(remap_range_bounds(3, 8, RemapOp::Delete(1, 4)), Some((1, 4)));
    let range = GridRange {
        start_row: 1,
        end_row: 5,
        start_column: 0,
        end_column: 2,
    };
    assert_eq!(
        remap_grid_range(range, SheetAxis::Row, RemapOp::Delete(0, 2)),
        Some(GridRange {
            start_row: 0,
            end_row: 3,
            start_column: 0,
            end_column: 2
        })
    );
}

#[test]
fn freeze_and_dimension_follow_structural_edits() {
    assert_eq!(remap_freeze(3, RemapOp::Insert(1, 2)), 5);
    assert_eq!(remap_freeze(3, RemapOp::Insert(3, 2)), 3);
    assert_eq!(remap_freeze(3, RemapOp::Delete(2, 5)), 2);
    assert_eq!(remap_dimension(10, RemapOp::Insert(0, 4)), 14);
    assert_eq!(remap_dimension(3, RemapOp::Delete(0, 4)), 0);
}

#[test]
fn day_numbers_match_the_calendar() {
    assert_eq!(days_from_civil(1970, 1, 1), 0);
    assert_eq!(days_from_civil(1899, 12, 30), -25_569);
    assert_eq!(days_from_civil(2000, 3, 1), 11_017);
    assert_eq!(civil_from_days(0), (1970, 1, 1));
    assert_eq!(civil_from_days(11_016), (2000, 2, 29));
    assert_eq!(civil_from_days(-25_569), (1899, 12, 30));
    for days in [-1_000_000i64, -1, 59, 60, 365, 10_957, 2_932_896] {
        let (y, m, d) = civil_from_days(days);
        assert_eq!(days_from_civil(y, m, d), days);
    }
}

#[test]
fn sheet_names_normalize_by_trimming_and_lowercasing() {
    assert_eq!(normalize_sheet("  Sheet 1\t"), "sheet 1");
    assert_eq!(normalize_sheet_name("DATA"), "data");
    assert_eq!(normalize_sheet("Ärger"), "Ärger");
}

#[test]
fn row_patterns_select_first_or_alternate_rows() {
    let range = GridRange {
        start_row: 4,
        end_row: 9,
        start_column: 0,
        end_column: 0,
    };
    assert!(RangeRowPattern::FirstRow.matches(range, 4));
    assert!(!RangeRowPattern::FirstRow.matches(range, 5));
    assert!(RangeRowPattern::AlternatingRows.matches(range, 5));
    assert!(!RangeRowPattern::AlternatingRows.matches(range, 6));
}

#[test]
fn editing_modes_default_to_contents_and_everything() {
    assert_eq!(ClearRangeMode::default(), ClearRangeMode::Contents);
    assert_eq!(SpreadsheetPasteMode::default(), SpreadsheetPasteMode::All);
    let _lexer = Lexer::new("=SUM(A1:B2)");
}

#[test]
fn ranges_overlap_exactly_when_they_share_a_cell() {
    let a = GridRange { start_row: 0, end_row: 2, start_column: 0, end_column: 2 };
    let touching = GridRange { start_row: 2, end_row: 5, start_column: 2, end_column: 3 };
    let beside = GridRange { start_row: 0, end_row: 2, start_column: 3, end_column: 4 };
    assert!(ranges_overlap(a, touching));
    assert!(ranges_overlap(touching, a));
    assert!(!ranges_overlap(a, beside));
    assert!(inside_range(2, 2, a));
    assert!(!inside_range(2, 3, a));
}

#[test]
fn range_cell_count_multiplies_rows_by_columns() {
    let range = GridRange { start_row: 3, end_row: 5, start_column: 1, end_column: 4 };
    assert_eq!(range_cell_count(range), 12);
    let wide = GridRange { start_row: 0, end_row: 65_535, start_column: 0, end_column: u32::MAX };
    assert_eq!(range_cell_count(wide), 1u64 << 48);
}

#[test]
fn window_cell_count_counts_its_positions() {
    let viewport = GridViewport::new(40, 90, 20, 70).unwrap();
    assert_eq!(viewport.cell_count(), 2500);
    let mut positions = 0u64;
    for row in 30..100 {
        for column in 10..80 {
            if viewport.contains(row, column) {
                positions += 1;
            }
        }
    }
    assert_eq!(positions, viewport.cell_count());
}

#[test]
fn consecutive_dates_have_consecutive_day_numbers() {
    assert_eq!(days_from_civil(1970, 1, 1), 0);
    assert_eq!(days_from_civil(1899, 12, 30), -25_569);
    for (today, tomorrow) in [
        ((2024, 2, 28), (2024, 2, 29)),
        ((2024, 2, 29), (2024, 3, 1)),
        ((2023, 2, 28), (2023, 3, 1)),
        ((1900, 2, 28), (1900, 3, 1)),
        ((2000, 2, 28), (2000, 2, 29)),
        ((1999, 12, 31), (2000, 1, 1)),
        ((2021, 4, 30), (2021, 5, 1)),
    ] {
        assert_eq!(days_from_civil(tomorrow.0, tomorrow.1, tomorrow.2), days_from_civil(today.0, today.1, today.2) + 1);
    }
}
