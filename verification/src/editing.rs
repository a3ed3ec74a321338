//! The plain options of clearing and pasting ranges.

use vstd::prelude::*;

verus! {

/// What `ClearRange` clears: contents, formats or both.
#[derive(Debug, Clone, Copy, PartialEq, Eq)]
pub enum ClearRangeMode {
    Contents,
    Formats,
    All,
}

impl Default for ClearRangeMode {
    /// Clearing contents is the default.
    fn default() -> (res: Self)
        ensures
            res == ClearRangeMode::Contents,
    {
        ClearRangeMode::Contents
    }
}

/// What a paste writes: everything, values only or formats only.
#[derive(Debug, Clone, Copy, PartialEq, Eq)]
pub enum SpreadsheetPasteMode {
    All,
    Values,
    Formats,
}

impl Default for SpreadsheetPasteMode {
    /// Pasting everything is the default.
    fn default() -> (res: Self)
        ensures
            res == SpreadsheetPasteMode::All,
    {
        SpreadsheetPasteMode::All
    }
}

/// The top-left cell a clipboard payload was copied from.
#[derive(Debug, Clone, Copy, PartialEq, Eq)]
pub struct SpreadsheetClipboardOrigin {
    pub row: u32,
    pub column: u32,
}

} // verus!
