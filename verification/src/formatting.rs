//! Which style fields a range formatting transaction writes, and to which
//! rows of the range.

use vstd::prelude::*;
use crate::grid::GridRange;

verus! {

/// A field of a cell style that a formatting command can write.
#[derive(Debug, Clone, Copy, PartialEq, Eq)]
pub enum CellStyleField {
    NumberFormat,
    FontFamily,
    FontSize,
    FontBold,
    FontItalic,
    FontUnderline,
    FontStrikethrough,
    FontColor,
    FillBackground,
    HorizontalAlignment,
    VerticalAlignment,
    Wrap,
    Borders,
    BorderTop,
    BorderBottom,
    BorderLeft,
    BorderRight,
    OuterBorders,
}

/// Non-persistent row selection for a single range formatting transaction.
#[derive(Debug, Clone, Copy, PartialEq, Eq)]
pub enum RangeRowPattern {
    FirstRow,
    AlternatingRows,
}

impl RangeRowPattern {
    /// Whether `row` of `range` is one the pattern formats: the first row,
    /// or every second row after it.
    pub fn matches(self, range: GridRange, row: u32) -> (res: bool)
        requires
            self == RangeRowPattern::AlternatingRows ==> range.start_row <= row,
        ensures
            res == match self {
                RangeRowPattern::FirstRow => row == range.start_row,
                RangeRowPattern::AlternatingRows => (row - range.start_row) % 2 == 1,
            },
    {
        match self {
            RangeRowPattern::FirstRow => row == range.start_row,
            RangeRowPattern::AlternatingRows => (row - range.start_row) % 2 == 1,
        }
    }
}

} // verus!
