//! Half-open viewports and inclusive grid ranges.

use vstd::prelude::*;

verus! {

/// Errors raised when a viewport request is malformed.
#[derive(Debug, Clone, PartialEq, Eq)]
pub enum ViewportError {
    EmptyRange,
    MissingSheet(String),
}

/// A half-open window `[start_row, end_row) x [start_column, end_column)`.
#[derive(Debug, Clone, Copy, PartialEq, Eq)]
pub struct GridViewport {
    pub start_row: u32,
    pub end_row: u32,
    pub start_column: u32,
    pub end_column: u32,
}

impl GridViewport {
    /// A viewport is well formed when both of its axes are non-empty.
    pub open spec fn wf(self) -> bool {
        self.start_row < self.end_row && self.start_column < self.end_column
    }

    pub open spec fn spec_contains(self, row: int, column: int) -> bool {
        self.start_row <= row < self.end_row && self.start_column <= column < self.end_column
    }

    pub open spec fn spec_cell_count(self) -> int {
        (self.end_row - self.start_row) * (self.end_column - self.start_column)
    }

    /// Builds a half-open viewport; an empty window on either axis is rejected.
    pub fn new(start_row: u32, end_row: u32, start_column: u32, end_column: u32) -> (res: Result<
        Self,
        ViewportError,
    >)
        ensures
            (start_row < end_row && start_column < end_column) <==> res is Ok,
            res matches Ok(v) ==> v.wf() && v.start_row == start_row && v.end_row == end_row
                && v.start_column == start_column && v.end_column == end_column,
            res matches Err(e) ==> e == ViewportError::EmptyRange,
    {
        if start_row >= end_row || start_column >= end_column {
            return Err(ViewportError::EmptyRange);
        }
        Ok(GridViewport { start_row, end_row, start_column, end_column })
    }

    pub fn contains(&self, row: u32, column: u32) -> (res: bool)
        ensures
            res == self.spec_contains(row as int, column as int),
    {
        row >= self.start_row && row < self.end_row && column >= self.start_column && column
            < self.end_column
    }

    /// Number of grid slots covered by the window, empty ones included.
    pub fn cell_count(&self) -> (res: u64)
        requires
            self.start_row <= self.end_row,
            self.start_column <= self.end_column,
        ensures
            res == self.spec_cell_count(),
    {
        let rows = (self.end_row - self.start_row) as u64;
        let columns = (self.end_column - self.start_column) as u64;
        assert(rows * columns <= u32::MAX as int * u32::MAX as int) by (nonlinear_arith)
            requires
                rows <= u32::MAX,
                columns <= u32::MAX,
        ;
        rows * columns
    }
}

/// An inclusive rectangular range `[start_row, end_row] x [start_column, end_column]`.
#[derive(Debug, Clone, Copy, PartialEq, Eq, Default)]
pub struct GridRange {
    pub start_row: u32,
    pub end_row: u32,
    pub start_column: u32,
    pub end_column: u32,
}

impl GridRange {
    pub open spec fn wf(self) -> bool {
        self.start_row <= self.end_row && self.start_column <= self.end_column
    }

    pub open spec fn spec_contains(self, row: int, column: int) -> bool {
        self.start_row <= row <= self.end_row && self.start_column <= column <= self.end_column
    }

    pub open spec fn spec_cell_count(self) -> int {
        (self.end_row - self.start_row + 1) * (self.end_column - self.start_column + 1)
    }
}

/// Whether two inclusive ranges share at least one cell.
pub fn ranges_overlap(left: GridRange, right: GridRange) -> (res: bool)
    ensures
        res == (left.start_row <= right.end_row && right.start_row <= left.end_row
            && left.start_column <= right.end_column && right.start_column <= left.end_column),
{
    left.start_row <= right.end_row && right.start_row <= left.end_row && left.start_column
        <= right.end_column && right.start_column <= left.end_column
}

/// Whether `(row, column)` lies inside the inclusive range.
pub fn inside_range(row: u32, column: u32, range: GridRange) -> (res: bool)
    ensures
        res == range.spec_contains(row as int, column as int),
{
    row >= range.start_row && row <= range.end_row && column >= range.start_column && column
        <= range.end_column
}

/// Number of cells of a well-formed inclusive range, blank ones included.
pub fn range_cell_count(range: GridRange) -> (res: u64)
    requires
        range.wf(),
        range.spec_cell_count() <= u64::MAX,
    ensures
        res == range.spec_cell_count(),
{
    let rows = (range.end_row - range.start_row) as u64 + 1;
    let columns = (range.end_column - range.start_column) as u64 + 1;
    rows * columns
}

/// Proof that two overlapping ranges have a common cell, and conversely.
pub proof fn law_overlap_iff_common_cell(left: GridRange, right: GridRange)
    requires
        left.wf(),
        right.wf(),
    ensures
        (left.start_row <= right.end_row && right.start_row <= left.end_row && left.start_column
            <= right.end_column && right.start_column <= left.end_column) <==> exists|r: int, c: int|
            left.spec_contains(r, c) && right.spec_contains(r, c),
{
    let r = if left.start_row >= right.start_row { left.start_row as int } else { right.start_row as int };
    let c = if left.start_column >= right.start_column { left.start_column as int } else { right.start_column as int };
    if left.start_row <= right.end_row && right.start_row <= left.end_row && left.start_column
        <= right.end_column && right.start_column <= left.end_column {
        assert(left.spec_contains(r, c) && right.spec_contains(r, c));
    }
}

/// The positions `(r, c)` with `r0 <= r < r1` and `c0 <= c < c1`.
pub open spec fn rect_positions(r0: int, r1: int, c0: int, c1: int) -> Set<(int, int)> {
    Set::new(|p: (int, int)| r0 <= p.0 < r1 && c0 <= p.1 < c1)
}

proof fn lemma_row_positions(r: int, c0: int, c1: int)
    requires
        c0 <= c1,
    ensures
        rect_positions(r, r + 1, c0, c1).finite(),
        rect_positions(r, r + 1, c0, c1).len() == c1 - c0,
    decreases c1 - c0,
{
    if c1 == c0 {
        assert(rect_positions(r, r + 1, c0, c1) =~= Set::<(int, int)>::empty());
    } else {
        lemma_row_positions(r, c0, c1 - 1);
        assert(rect_positions(r, r + 1, c0, c1) =~= rect_positions(r, r + 1, c0, c1 - 1).insert((r, c1 - 1)));
    }
}

proof fn lemma_rect_positions(r0: int, r1: int, c0: int, c1: int)
    requires
        r0 <= r1,
        c0 <= c1,
    ensures
        rect_positions(r0, r1, c0, c1).finite(),
        rect_positions(r0, r1, c0, c1).len() == (r1 - r0) * (c1 - c0),
    decreases r1 - r0,
{
    if r1 == r0 {
        assert(rect_positions(r0, r1, c0, c1) =~= Set::<(int, int)>::empty());
        assert((r1 - r0) * (c1 - c0) == 0) by (nonlinear_arith)
            requires
                r1 == r0,
        ;
    } else {
        lemma_rect_positions(r0, r1 - 1, c0, c1);
        lemma_row_positions(r1 - 1, c0, c1);
        let a = rect_positions(r0, r1 - 1, c0, c1);
        let b = rect_positions(r1 - 1, r1, c0, c1);
        assert(a.disjoint(b));
        vstd::set_lib::lemma_set_disjoint_lens(a, b);
        assert(rect_positions(r0, r1, c0, c1) =~= a + b);
        assert((r1 - r0) * (c1 - c0) == (r1 - 1 - r0) * (c1 - c0) + (c1 - c0)) by (nonlinear_arith);
    }
}

/// A viewport's cell count is the number of positions it contains.
pub proof fn law_cell_count_is_positions(v: GridViewport)
    requires
        v.start_row <= v.end_row,
        v.start_column <= v.end_column,
    ensures
        Set::new(|p: (int, int)| v.spec_contains(p.0, p.1)).finite(),
        v.spec_cell_count() == Set::new(|p: (int, int)| v.spec_contains(p.0, p.1)).len(),
{
    lemma_rect_positions(v.start_row as int, v.end_row as int, v.start_column as int, v.end_column as int);
    assert(Set::new(|p: (int, int)| v.spec_contains(p.0, p.1)) =~= rect_positions(
        v.start_row as int,
        v.end_row as int,
        v.start_column as int,
        v.end_column as int,
    ));
}

} // verus!
