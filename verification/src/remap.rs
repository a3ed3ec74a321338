//! Row and column structural edits: how positions, inclusive ranges, the
//! frozen band and the used-range dimension follow an insert or a delete.

use vstd::prelude::*;
use crate::grid::GridRange;

verus! {

/// Which axis a structural edit shifts along.
#[derive(Debug, Clone, Copy, PartialEq, Eq)]
pub enum SheetAxis {
    Row,
    Column,
}

/// The structural edit applied along an axis.
#[derive(Debug, Clone, Copy, PartialEq, Eq)]
pub enum RemapOp {
    /// Insert `count` empty slots at 0-based position `at`.
    Insert(u32, u32),
    /// Delete the `count` slots in `[at, at + count)`.
    Delete(u32, u32),
}

/// Where a position lands after the edit; `None` when it is deleted.
pub open spec fn spec_remap_position(position: int, op: RemapOp) -> Option<int> {
    match op {
        RemapOp::Insert(at, count) => Some(
            if position >= at {
                position + count
            } else {
                position
            },
        ),
        RemapOp::Delete(at, count) => {
            if position >= at + count {
                Some(position - count)
            } else if position >= at {
                None
            } else {
                Some(position)
            }
        },
    }
}

/// The edit can be applied to `position` without leaving `u32`.
pub open spec fn position_fits(position: int, op: RemapOp) -> bool {
    match op {
        RemapOp::Insert(at, count) => position >= at ==> position + count <= u32::MAX,
        RemapOp::Delete(at, count) => at + count <= u32::MAX,
    }
}

/// Shifts a 0-based coordinate along the edited axis.
pub fn remap_position(position: u32, op: RemapOp) -> (res: Option<u32>)
    requires
        position_fits(position as int, op),
    ensures
        match spec_remap_position(position as int, op) {
            Some(p) => res == Some(p as u32),
            None => res is None,
        },
{
    match op {
        RemapOp::Insert(at, count) => Some(
            if position >= at {
                position + count
            } else {
                position
            },
        ),
        RemapOp::Delete(at, count) => {
            if position >= at + count {
                Some(position - count)
            } else if position >= at {
                None
            } else {
                Some(position)
            }
        },
    }
}

/// The inclusive bounds after the edit; `None` when a delete swallows the
/// whole range. Coordinates are truncated to `u32` as casts do.
pub open spec fn spec_remap_range_bounds(start: int, end: int, op: RemapOp) -> Option<(u32, u32)> {
    match op {
        RemapOp::Insert(at, count) => {
            if start >= at {
                Some(((start + count) as u32, (end + count) as u32))
            } else if end >= at {
                Some((start as u32, (end + count) as u32))
            } else {
                Some((start as u32, end as u32))
            }
        },
        RemapOp::Delete(at, count) => {
            let band_start = at as int;
            let band_end = at + count;
            if start >= band_end {
                Some(((start - count) as u32, (end - count) as u32))
            } else if end < band_start {
                Some((start as u32, end as u32))
            } else if start >= band_start && end < band_end {
                None
            } else if start >= band_start {
                Some((band_start as u32, (end - count) as u32))
            } else if end >= band_end {
                Some((start as u32, (end - count) as u32))
            } else {
                Some((start as u32, (band_start - 1) as u32))
            }
        },
    }
}

/// Shifts or contracts an inclusive range along one axis.
pub fn remap_range_bounds(start: u32, end: u32, op: RemapOp) -> (res: Option<(u32, u32)>)
    ensures
        res == spec_remap_range_bounds(start as int, end as int, op),
{
    let start = start as i64;
    let end = end as i64;
    match op {
        RemapOp::Insert(at, count) => {
            let at = at as i64;
            let count = count as i64;
            if start >= at {
                Some(((start + count) as u32, (end + count) as u32))
            } else if end >= at {
                Some((start as u32, (end + count) as u32))
            } else {
                Some((start as u32, end as u32))
            }
        },
        RemapOp::Delete(at, count) => {
            let at = at as i64;
            let count = count as i64;
            let band_start = at;
            let band_end = at + count;
            if start >= band_end {
                Some(((start - count) as u32, (end - count) as u32))
            } else if end < band_start {
                Some((start as u32, end as u32))
            } else if start >= band_start && end < band_end {
                None
            } else if start >= band_start {
                Some((band_start as u32, (end - count) as u32))
            } else if end >= band_end {
                Some((start as u32, (end - count) as u32))
            } else {
                Some((start as u32, (band_start - 1) as u32))
            }
        },
    }
}

/// Orders a pair of bounds so that `start <= end`.
pub fn clamp_range_bounds(start: u32, end: u32, _op: RemapOp) -> (res: (u32, u32))
    ensures
        res.0 == if start <= end { start } else { end },
        res.1 == if end >= start { end } else { start },
{
    (if start <= end { start } else { end }, if end >= start { end } else { start })
}

/// A grid range after the edit along `axis`, its bounds on that axis put in
/// order; `None` when it is swallowed.
pub open spec fn spec_remap_grid_range(range: GridRange, axis: SheetAxis, op: RemapOp) -> Option<GridRange> {
    let (s, e) = match axis {
        SheetAxis::Row => (range.start_row, range.end_row),
        SheetAxis::Column => (range.start_column, range.end_column),
    };
    match spec_remap_range_bounds(s as int, e as int, op) {
        None => None,
        Some((ns, ne)) => {
            let lo = if ns <= ne { ns } else { ne };
            let hi = if ne >= ns { ne } else { ns };
            Some(
                match axis {
                    SheetAxis::Row => GridRange {
                        start_row: lo,
                        end_row: hi,
                        start_column: range.start_column,
                        end_column: range.end_column,
                    },
                    SheetAxis::Column => GridRange {
                        start_row: range.start_row,
                        end_row: range.end_row,
                        start_column: lo,
                        end_column: hi,
                    },
                },
            )
        },
    }
}

/// Shifts or contracts a grid range along `axis`; `None` when it is swallowed.
pub fn remap_grid_range(range: GridRange, axis: SheetAxis, op: RemapOp) -> (res: Option<GridRange>)
    ensures
        res == spec_remap_grid_range(range, axis, op),
        ({
            let (s, e) = match axis {
                SheetAxis::Row => (range.start_row, range.end_row),
                SheetAxis::Column => (range.start_column, range.end_column),
            };
            match spec_remap_range_bounds(s as int, e as int, op) {
                None => res is None,
                Some((ns, ne)) => {
                    let lo = if ns <= ne { ns } else { ne };
                    let hi = if ne >= ns { ne } else { ns };
                    res == Some(
                        match axis {
                            SheetAxis::Row => GridRange {
                                start_row: lo,
                                end_row: hi,
                                start_column: range.start_column,
                                end_column: range.end_column,
                            },
                            SheetAxis::Column => GridRange {
                                start_row: range.start_row,
                                end_row: range.end_row,
                                start_column: lo,
                                end_column: hi,
                            },
                        },
                    )
                },
            }
        }),
{
    let (start, end) = match axis {
        SheetAxis::Row => (range.start_row, range.end_row),
        SheetAxis::Column => (range.start_column, range.end_column),
    };
    let (start, end) = match remap_range_bounds(start, end, op) {
        Some(bounds) => bounds,
        None => return None,
    };
    let (start, end) = clamp_range_bounds(start, end, op);
    match axis {
        SheetAxis::Row => Some(
            GridRange {
                start_row: start,
                end_row: end,
                start_column: range.start_column,
                end_column: range.end_column,
            },
        ),
        SheetAxis::Column => Some(
            GridRange {
                start_row: range.start_row,
                end_row: range.end_row,
                start_column: start,
                end_column: end,
            },
        ),
    }
}

pub open spec fn spec_remap_freeze(frozen: int, op: RemapOp) -> int {
    match op {
        RemapOp::Insert(at, count) => if at < frozen {
            frozen + count
        } else {
            frozen
        },
        RemapOp::Delete(at, count) => {
            let removed = if at < frozen {
                (if at + count <= frozen { at + count } else { frozen }) - at
            } else {
                0
            };
            if frozen >= removed {
                frozen - removed
            } else {
                0
            }
        },
    }
}

/// The edit can be applied to a frozen band of size `frozen` without leaving `u32`.
pub open spec fn freeze_fits(frozen: int, op: RemapOp) -> bool {
    match op {
        RemapOp::Insert(at, count) => at < frozen ==> frozen + count <= u32::MAX,
        RemapOp::Delete(at, count) => at < frozen ==> at + count <= u32::MAX,
    }
}

/// Grows or shrinks the frozen band for a structural edit.
pub fn remap_freeze(frozen: u32, op: RemapOp) -> (res: u32)
    requires
        freeze_fits(frozen as int, op),
    ensures
        res == spec_remap_freeze(frozen as int, op),
{
    match op {
        RemapOp::Insert(at, count) => {
            if at < frozen {
                frozen + count
            } else {
                frozen
            }
        },
        RemapOp::Delete(at, count) => {
            let removed_in_band = if at < frozen {
                let band_end = at + count;
                (if band_end <= frozen { band_end } else { frozen }) - at
            } else {
                0
            };
            frozen.saturating_sub(removed_in_band)
        },
    }
}

/// The used-range dimension count after the edit.
pub open spec fn spec_remap_dimension(dimension: int, op: RemapOp) -> int {
    match op {
        RemapOp::Insert(_, count) => dimension + count,
        RemapOp::Delete(_, count) => if dimension >= count {
            dimension - count
        } else {
            0
        },
    }
}

/// Adjusts the used-range dimension count for a structural edit.
pub fn remap_dimension(dimension: u32, op: RemapOp) -> (res: u32)
    requires
        op matches RemapOp::Insert(_, count) ==> dimension + count <= u32::MAX,
    ensures
        res == spec_remap_dimension(dimension as int, op),
        res == match op {
            RemapOp::Insert(_, count) => dimension + count,
            RemapOp::Delete(_, count) => if dimension >= count {
                dimension - count
            } else {
                0
            },
        },
{
    match op {
        RemapOp::Insert(_, count) => dimension + count,
        RemapOp::Delete(_, count) => dimension.saturating_sub(count),
    }
}

/// Deleting the band that an insert created puts every position back.
pub proof fn law_delete_undoes_insert_position(position: u32, at: u32, count: u32)
    requires
        position >= at ==> position + count <= u32::MAX,
        at + count <= u32::MAX,
    ensures
        spec_remap_position(position as int, RemapOp::Insert(at, count)) matches Some(moved)
            && spec_remap_position(moved, RemapOp::Delete(at, count)) == Some(position as int),
{
}

/// Structural edits keep the relative order of the positions that survive.
pub proof fn law_remap_position_monotone(p: int, q: int, op: RemapOp)
    requires
        p < q,
        spec_remap_position(p, op) is Some,
        spec_remap_position(q, op) is Some,
    ensures
        spec_remap_position(p, op).unwrap() < spec_remap_position(q, op).unwrap(),
{
}

/// An inclusive range keeps every one of its cells that survives the edit:
/// a surviving cell of the range lands inside the remapped range, and a
/// well-formed range stays well formed.
pub proof fn law_range_follows_its_cells(start: u32, end: u32, op: RemapOp, p: int)
    requires
        start <= end,
        op matches RemapOp::Insert(at, count) ==> end + count <= u32::MAX,
        op matches RemapOp::Delete(at, count) ==> at + count <= u32::MAX,
        start <= p <= end,
        spec_remap_position(p, op) is Some,
    ensures
        spec_remap_range_bounds(start as int, end as int, op) matches Some((ns, ne)) && ns <= ne
            && ns <= spec_remap_position(p, op).unwrap() <= ne,
{
}

/// A delete swallows a range exactly when none of its cells survive.
pub proof fn law_range_swallowed_iff_all_cells_deleted(start: u32, end: u32, at: u32, count: u32)
    requires
        start <= end,
        at + count <= u32::MAX,
    ensures
        spec_remap_range_bounds(start as int, end as int, RemapOp::Delete(at, count)) is None
            <==> (forall|p: int|
            start <= p <= end ==> #[trigger] spec_remap_position(p, RemapOp::Delete(at, count))
                is None),
{
    let op = RemapOp::Delete(at, count);
    if spec_remap_range_bounds(start as int, end as int, op) is Some {
        if start as int >= at + count {
            assert(spec_remap_position(start as int, op) is Some);
        } else if (end as int) < at {
            assert(spec_remap_position(end as int, op) is Some);
        } else if start >= at {
            assert(spec_remap_position(end as int, op) is Some);
        } else {
            assert(spec_remap_position(start as int, op) is Some);
        }
    }
}

/// Deleting the band an insert created restores an inclusive range.
pub proof fn law_delete_undoes_insert_range(start: u32, end: u32, at: u32, count: u32)
    requires
        start <= end,
        end + count <= u32::MAX,
    ensures
        spec_remap_range_bounds(start as int, end as int, RemapOp::Insert(at, count)) matches Some(
            (ns, ne),
        ) && spec_remap_range_bounds(ns as int, ne as int, RemapOp::Delete(at, count)) == Some(
            (start, end),
        ),
{
}

/// Deleting the band an insert created restores the frozen band.
pub proof fn law_delete_undoes_insert_freeze(frozen: u32, at: u32, count: u32)
    requires
        frozen + count <= u32::MAX,
        at + count <= u32::MAX,
    ensures
        spec_remap_freeze(
            spec_remap_freeze(frozen as int, RemapOp::Insert(at, count)),
            RemapOp::Delete(at, count),
        ) == frozen,
{
}

/// An inclusive range after an edit is exactly the hull of the images of its
/// surviving cells: `None` when no cell survives; otherwise both bounds are
/// images of surviving cells of the range, and every surviving cell lands
/// between them.
pub proof fn law_range_is_hull_of_surviving_cells(start: u32, end: u32, op: RemapOp)
    requires
        start <= end,
        op matches RemapOp::Insert(at, count) ==> end + count <= u32::MAX,
        op matches RemapOp::Delete(at, count) ==> at + count <= u32::MAX,
    ensures
        match spec_remap_range_bounds(start as int, end as int, op) {
            None => forall|p: int| start <= p <= end ==> #[trigger] spec_remap_position(p, op) is None,
            Some((ns, ne)) => {
                &&& ns <= ne
                &&& exists|p: int| start <= p <= end && #[trigger] spec_remap_position(p, op) == Some(ns as int)
                &&& exists|q: int| start <= q <= end && #[trigger] spec_remap_position(q, op) == Some(ne as int)
                &&& forall|p: int|
                    start <= p <= end && #[trigger] spec_remap_position(p, op) is Some ==> ns <= spec_remap_position(
                        p,
                        op,
                    ).unwrap() <= ne
            },
        },
{
    let lo = start as int;
    let hi = end as int;
    match op {
        RemapOp::Insert(at, count) => {
            assert(spec_remap_position(lo, op) == Some(if lo >= at { lo + count } else { lo }));
            assert(spec_remap_position(hi, op) == Some(if hi >= at { hi + count } else { hi }));
        },
        RemapOp::Delete(at, count) => {
            let be = at + count;
            if lo >= be || hi < at {
                assert(spec_remap_position(lo, op) is Some);
                assert(spec_remap_position(hi, op) is Some);
            } else if lo >= at && hi < be {
            } else if lo >= at {
                assert(spec_remap_position(be, op) == Some(at as int));
                assert(spec_remap_position(hi, op) == Some(hi - count));
            } else if hi >= be {
                assert(spec_remap_position(lo, op) == Some(lo));
                assert(spec_remap_position(hi, op) == Some(hi - count));
            } else {
                assert(spec_remap_position(lo, op) == Some(lo));
                assert(spec_remap_position(at - 1, op) == Some(at - 1));
            }
        },
    }
}

/// The frozen band after an edit holds exactly the surviving positions that
/// were frozen: a surviving position lands inside the new band exactly when
/// it was inside the old one.
pub proof fn law_freeze_keeps_exactly_the_frozen_survivors(frozen: u32, op: RemapOp, p: int)
    requires
        p >= 0,
        spec_remap_position(p, op) is Some,
    ensures
        (p < frozen) <==> (spec_remap_position(p, op).unwrap() < spec_remap_freeze(frozen as int, op)),
{
}

} // verus!
