//! A fill: the cells of a source range repeated over a destination range,
//! row by row, as the clipboard cells of a paste.

use vstd::prelude::*;
use crate::cells::copy_opt_value;
use crate::cells::{copy_text, copy_attrs};
use crate::dependency::CellModel;
use crate::editing::SpreadsheetClipboardOrigin;
use crate::grid::GridRange;
use crate::mutation::sorted_cells;
use crate::sheet_edits::SpreadsheetClipboardCell;
use crate::viewport::{CellView, cells_view};
use crate::paste::{ClipView, clip_views, pos_map, pos_of, find_at};

verus! {

/// The clipboard cell a source cell becomes at offset `(dr, dc)` of the
/// destination, with the source's position as its origin.
pub open spec fn fill_clip(c: CellView, dr: int, dc: int) -> (ClipView, Option<SpreadsheetClipboardOrigin>) {
    ((dr as u32, dc as u32, c.3, c.2, c.5, c.4), Some(SpreadsheetClipboardOrigin { row: c.0, column: c.1 }))
}

/// What the destination cell `(r, c)` takes from the source: the source
/// cell at its offset, wrapped around the source's size, if there is one.
pub open spec fn fill_slot(src: Map<(u32, u32), CellView>, sr: GridRange, dr: GridRange, r: int, c: int) -> Seq<(ClipView, Option<SpreadsheetClipboardOrigin>)> {
    let rows = sr.end_row - sr.start_row + 1;
    let columns = sr.end_column - sr.start_column + 1;
    let p = ((sr.start_row + (r - dr.start_row) % rows) as u32, (sr.start_column + (c - dr.start_column) % columns) as u32);
    if src.contains_key(p) {
        seq![fill_clip(src[p], r - dr.start_row, c - dr.start_column)]
    } else {
        Seq::empty()
    }
}

/// The clipboard cells of destination row `r`, columns before `c_end`.
pub open spec fn fill_row(src: Map<(u32, u32), CellView>, sr: GridRange, dr: GridRange, r: int, c_end: int) -> Seq<(ClipView, Option<SpreadsheetClipboardOrigin>)>
    decreases c_end - dr.start_column,
{
    if c_end <= dr.start_column {
        Seq::empty()
    } else {
        fill_row(src, sr, dr, r, c_end - 1) + fill_slot(src, sr, dr, r, c_end - 1)
    }
}

/// The clipboard cells of the destination rows before `r_end`, row by row.
pub open spec fn fill_rows(src: Map<(u32, u32), CellView>, sr: GridRange, dr: GridRange, r_end: int) -> Seq<(ClipView, Option<SpreadsheetClipboardOrigin>)>
    decreases r_end - dr.start_row,
{
    if r_end <= dr.start_row {
        Seq::empty()
    } else {
        fill_rows(src, sr, dr, r_end - 1) + fill_row(src, sr, dr, r_end - 1, dr.end_column + 1)
    }
}

/// The clipboard cells a fill of `dr` from the source cells `src` of range
/// `sr` pastes.
pub open spec fn fill_clips(src: Seq<CellView>, sr: GridRange, dr: GridRange) -> Seq<(ClipView, Option<SpreadsheetClipboardOrigin>)> {
    fill_rows(pos_map(src), sr, dr, dr.end_row + 1)
}

/// Every clipboard cell of a fill row sits at an offset inside the destination.
proof fn lemma_fill_row_targets(src: Map<(u32, u32), CellView>, sr: GridRange, dr: GridRange, r: int, c_end: int)
    requires
        dr.start_row <= r <= dr.end_row,
        c_end <= dr.end_column + 1,
    ensures
        forall|k: int|
            0 <= k < fill_row(src, sr, dr, r, c_end).len() ==> (#[trigger] fill_row(src, sr, dr, r, c_end)[k]).0.0 <= dr.end_row - dr.start_row
                && fill_row(src, sr, dr, r, c_end)[k].0.1 <= dr.end_column - dr.start_column,
    decreases c_end - dr.start_column,
{
    if c_end > dr.start_column {
        lemma_fill_row_targets(src, sr, dr, r, c_end - 1);
        let a = fill_row(src, sr, dr, r, c_end - 1);
        let b = fill_slot(src, sr, dr, r, c_end - 1);
        assert forall|k: int|
            0 <= k < (a + b).len() implies (#[trigger] (a + b)[k]).0.0 <= dr.end_row - dr.start_row
            && (a + b)[k].0.1 <= dr.end_column - dr.start_column by {
            if k < a.len() {
                assert((a + b)[k] == a[k]);
            } else {
                assert((a + b)[k] == b[k - a.len()]);
            }
        }
    }
}

/// Every clipboard cell of a fill sits at an offset inside the destination.
pub proof fn lemma_fill_targets(src: Map<(u32, u32), CellView>, sr: GridRange, dr: GridRange, r_end: int)
    requires
        r_end <= dr.end_row + 1,
    ensures
        forall|k: int|
            0 <= k < fill_rows(src, sr, dr, r_end).len() ==> (#[trigger] fill_rows(src, sr, dr, r_end)[k]).0.0 <= dr.end_row - dr.start_row
                && fill_rows(src, sr, dr, r_end)[k].0.1 <= dr.end_column - dr.start_column,
    decreases r_end - dr.start_row,
{
    if r_end > dr.start_row {
        lemma_fill_targets(src, sr, dr, r_end - 1);
        lemma_fill_row_targets(src, sr, dr, r_end - 1, dr.end_column + 1);
        let a = fill_rows(src, sr, dr, r_end - 1);
        let b = fill_row(src, sr, dr, r_end - 1, dr.end_column + 1);
        assert forall|k: int|
            0 <= k < (a + b).len() implies (#[trigger] (a + b)[k]).0.0 <= dr.end_row - dr.start_row
            && (a + b)[k].0.1 <= dr.end_column - dr.start_column by {
            if k < a.len() {
                assert((a + b)[k] == a[k]);
            } else {
                assert((a + b)[k] == b[k - a.len()]);
            }
        }
    }
}

/// The clipboard cells of a fill of `dr` from the cells `src` of the
/// source range `sr`, which lists each position once.
pub fn fill_cells(src: &Vec<CellModel>, sr: GridRange, dr: GridRange) -> (res: Vec<(SpreadsheetClipboardCell, Option<SpreadsheetClipboardOrigin>)>)
    requires
        sorted_cells(cells_view(src@)),
        sr.wf(),
        dr.wf(),
    ensures
        clip_views(res@) == fill_clips(cells_view(src@), sr, dr),
{
    let ghost m = pos_map(cells_view(src@));
    let rows: u64 = (sr.end_row - sr.start_row) as u64 + 1;
    let columns: u64 = (sr.end_column - sr.start_column) as u64 + 1;
    let mut out: Vec<(SpreadsheetClipboardCell, Option<SpreadsheetClipboardOrigin>)> = Vec::new();
    let mut r: u64 = dr.start_row as u64;
    proof {
        assert(clip_views(out@) =~= fill_rows(m, sr, dr, r as int));
    }
    while r <= dr.end_row as u64
        invariant
            dr.wf(),
            sr.wf(),
            rows == sr.end_row - sr.start_row + 1,
            columns == sr.end_column - sr.start_column + 1,
            m == pos_map(cells_view(src@)),
            sorted_cells(cells_view(src@)),
            dr.start_row <= r <= dr.end_row as int + 1,
            clip_views(out@) == fill_rows(m, sr, dr, r as int),
        decreases dr.end_row as int + 1 - r,
    {
        let mut c: u64 = dr.start_column as u64;
        proof {
            assert(fill_row(m, sr, dr, r as int, c as int) =~= Seq::<(ClipView, Option<SpreadsheetClipboardOrigin>)>::empty());
            assert(clip_views(out@) =~= fill_rows(m, sr, dr, r as int) + fill_row(m, sr, dr, r as int, c as int));
        }
        while c <= dr.end_column as u64
            invariant
                dr.wf(),
                sr.wf(),
                rows == sr.end_row - sr.start_row + 1,
                columns == sr.end_column - sr.start_column + 1,
                m == pos_map(cells_view(src@)),
                sorted_cells(cells_view(src@)),
                dr.start_row <= r <= dr.end_row,
                dr.start_column <= c <= dr.end_column as int + 1,
                clip_views(out@) == fill_rows(m, sr, dr, r as int) + fill_row(m, sr, dr, r as int, c as int),
            decreases dr.end_column as int + 1 - c,
        {
            let source_row = sr.start_row as u64 + (r - dr.start_row as u64) % rows;
            let source_column = sr.start_column as u64 + (c - dr.start_column as u64) % columns;
            proof {
                assert((r - dr.start_row) % (rows as int) < rows);
                assert((c - dr.start_column) % (columns as int) < columns);
            }
            let ghost before = out@;
            match find_at(src, source_row as u32, source_column as u32) {
                None => {},
                Some(j) => {
                    let s = &src[j];
                    let clip = SpreadsheetClipboardCell {
                        row_offset: (r - dr.start_row as u64) as u32,
                        column_offset: (c - dr.start_column as u64) as u32,
                        value: copy_opt_value(&s.value),
                        formula: copy_text(&s.formula),
                        attrs: copy_attrs(&s.attrs),
                        style: copy_text(&s.style),
                    };
                    out.push((clip, Some(SpreadsheetClipboardOrigin { row: s.row, column: s.column })));
                },
            }
            proof {
                let slot = fill_slot(m, sr, dr, r as int, c as int);
                assert(clip_views(out@) =~= clip_views(before) + slot);
                assert(fill_row(m, sr, dr, r as int, c + 1) == fill_row(m, sr, dr, r as int, c as int) + slot);
                assert(clip_views(out@) =~= fill_rows(m, sr, dr, r as int) + fill_row(m, sr, dr, r as int, c + 1));
            }
            c += 1;
        }
        proof {
            assert(fill_rows(m, sr, dr, r + 1) == fill_rows(m, sr, dr, r as int) + fill_row(m, sr, dr, r as int, dr.end_column + 1));
        }
        r += 1;
    }
    out
}

/// The source position repeated at destination cell `(r, c)`.
spec fn source_at(sr: GridRange, dr: GridRange, r: int, c: int) -> (u32, u32) {
    (
        (sr.start_row + (r - dr.start_row) % (sr.end_row - sr.start_row + 1)) as u32,
        (sr.start_column + (c - dr.start_column) % (sr.end_column - sr.start_column + 1)) as u32,
    )
}

/// A cell of the map sits at its key.
proof fn lemma_pos_map_keys(s: Seq<CellView>)
    ensures
        forall|p: (u32, u32)| #[trigger] pos_map(s).contains_key(p) ==> pos_map(s)[p].0 == p.0 && pos_map(s)[p].1 == p.1,
    decreases s.len(),
{
    if s.len() > 0 {
        let pre = s.drop_last();
        lemma_pos_map_keys(pre);
        assert forall|p: (u32, u32)| #[trigger] pos_map(s).contains_key(p) implies pos_map(s)[p].0 == p.0 && pos_map(s)[p].1 == p.1 by {
            if p != pos_of(s.last()) {
                assert(pos_map(pre).contains_key(p));
            }
        }
    }
}

/// The clipboard cell `x` is the one destination cell at its offset takes
/// from the repeated source cell, which exists.
spec fn from_source(src: Map<(u32, u32), CellView>, sr: GridRange, dr: GridRange, x: (ClipView, Option<SpreadsheetClipboardOrigin>)) -> bool {
    let r2 = dr.start_row + x.0.0;
    let c2 = dr.start_column + x.0.1;
    &&& src.contains_key(source_at(sr, dr, r2, c2))
    &&& x == fill_clip(src[source_at(sr, dr, r2, c2)], r2 - dr.start_row, c2 - dr.start_column)
}

/// The clipboard cells of one destination row are those of its columns
/// whose repeated source cell exists.
proof fn lemma_fill_row_members(src: Map<(u32, u32), CellView>, sr: GridRange, dr: GridRange, r: int, c_end: int)
    requires
        sr.wf(),
        dr.wf(),
        dr.start_row <= r <= dr.end_row,
        dr.start_column <= c_end <= dr.end_column + 1,
    ensures
        forall|k: int|
            0 <= k < fill_row(src, sr, dr, r, c_end).len() ==> {
                let x = #[trigger] fill_row(src, sr, dr, r, c_end)[k];
                &&& x.0.0 == r - dr.start_row
                &&& dr.start_column + x.0.1 < c_end
                &&& from_source(src, sr, dr, x)
            },
        forall|c2: int|
            dr.start_column <= c2 < c_end && src.contains_key(#[trigger] source_at(sr, dr, r, c2)) ==> exists|k: int|
                0 <= k < fill_row(src, sr, dr, r, c_end).len() && #[trigger] fill_row(src, sr, dr, r, c_end)[k] == fill_clip(
                    src[source_at(sr, dr, r, c2)],
                    r - dr.start_row,
                    c2 - dr.start_column,
                ),
    decreases c_end - dr.start_column,
{
    if c_end > dr.start_column {
        lemma_fill_row_members(src, sr, dr, r, c_end - 1);
        let a = fill_row(src, sr, dr, r, c_end - 1);
        let b = fill_slot(src, sr, dr, r, c_end - 1);
        let all = fill_row(src, sr, dr, r, c_end);
        assert(all == a + b);
        assert forall|k: int| 0 <= k < all.len() implies {
            let x = #[trigger] all[k];
            &&& x.0.0 == r - dr.start_row
            &&& dr.start_column + x.0.1 < c_end
            &&& from_source(src, sr, dr, x)
        } by {
            if k < a.len() {
                assert(all[k] == a[k]);
            } else {
                assert(all[k] == b[k - a.len()]);
            }
        }
        assert forall|c2: int|
            dr.start_column <= c2 < c_end && src.contains_key(#[trigger] source_at(sr, dr, r, c2)) implies exists|k: int|
                0 <= k < all.len() && #[trigger] all[k] == fill_clip(
                    src[source_at(sr, dr, r, c2)],
                    r - dr.start_row,
                    c2 - dr.start_column,
                ) by {
            if c2 < c_end - 1 {
                let k = choose|k: int|
                    0 <= k < a.len() && #[trigger] a[k] == fill_clip(src[source_at(sr, dr, r, c2)], r - dr.start_row, c2 - dr.start_column);
                assert(all[k] == a[k]);
            } else {
                assert(b.len() == 1);
                assert(all[a.len() as int] == b[0]);
            }
        }
    } else {
        assert(fill_row(src, sr, dr, r, c_end) =~= Seq::<(ClipView, Option<SpreadsheetClipboardOrigin>)>::empty());
    }
}

/// The clipboard cells of the destination rows before `r_end` are those of
/// their cells whose repeated source cell exists.
#[verifier::spinoff_prover]
proof fn lemma_fill_rows_members(src: Map<(u32, u32), CellView>, sr: GridRange, dr: GridRange, r_end: int)
    requires
        sr.wf(),
        dr.wf(),
        dr.start_row <= r_end <= dr.end_row + 1,
    ensures
        forall|k: int|
            0 <= k < fill_rows(src, sr, dr, r_end).len() ==> {
                let x = #[trigger] fill_rows(src, sr, dr, r_end)[k];
                &&& dr.start_row + x.0.0 < r_end
                &&& dr.start_column + x.0.1 <= dr.end_column
                &&& from_source(src, sr, dr, x)
            },
        forall|r2: int, c2: int|
            dr.start_row <= r2 < r_end && dr.start_column <= c2 <= dr.end_column && src.contains_key(
                #[trigger] source_at(sr, dr, r2, c2),
            ) ==> exists|k: int|
                0 <= k < fill_rows(src, sr, dr, r_end).len() && #[trigger] fill_rows(src, sr, dr, r_end)[k] == fill_clip(
                    src[source_at(sr, dr, r2, c2)],
                    r2 - dr.start_row,
                    c2 - dr.start_column,
                ),
    decreases r_end - dr.start_row,
{
    if r_end > dr.start_row {
        lemma_fill_rows_members(src, sr, dr, r_end - 1);
        lemma_fill_row_members(src, sr, dr, r_end - 1, dr.end_column + 1);
        let a = fill_rows(src, sr, dr, r_end - 1);
        let b = fill_row(src, sr, dr, r_end - 1, dr.end_column + 1);
        let all = fill_rows(src, sr, dr, r_end);
        assert(all == a + b);
        assert forall|k: int| 0 <= k < all.len() implies {
            let x = #[trigger] all[k];
            &&& dr.start_row + x.0.0 < r_end
            &&& dr.start_column + x.0.1 <= dr.end_column
            &&& from_source(src, sr, dr, x)
        } by {
            if k < a.len() {
                assert(all[k] == a[k]);
            } else {
                assert(all[k] == b[k - a.len()]);
            }
        }
        assert forall|r2: int, c2: int|
            dr.start_row <= r2 < r_end && dr.start_column <= c2 <= dr.end_column && src.contains_key(
                #[trigger] source_at(sr, dr, r2, c2),
            ) implies exists|k: int|
                0 <= k < all.len() && #[trigger] all[k] == fill_clip(
                    src[source_at(sr, dr, r2, c2)],
                    r2 - dr.start_row,
                    c2 - dr.start_column,
                ) by {
            if r2 < r_end - 1 {
                let k = choose|k: int|
                    0 <= k < a.len() && #[trigger] a[k] == fill_clip(src[source_at(sr, dr, r2, c2)], r2 - dr.start_row, c2 - dr.start_column);
                assert(all[k] == a[k]);
            } else {
                let k = choose|k: int|
                    0 <= k < b.len() && #[trigger] b[k] == fill_clip(src[source_at(sr, dr, r2, c2)], r2 - dr.start_row, c2 - dr.start_column);
                assert(all[a.len() + k] == b[k]);
            }
        }
    } else {
        assert(fill_rows(src, sr, dr, r_end) =~= Seq::<(ClipView, Option<SpreadsheetClipboardOrigin>)>::empty());
    }
}

/// A fill repeats its source block: the destination cell `(r, c)` takes the
/// source cell at offset `((r - top) mod source height, (c - left) mod source
/// width)` from the source's top-left cell, when there is one, with its
/// value, formula, attributes and style, and that cell's position as the
/// origin its formula is moved from; and it takes nothing when there is none.
pub proof fn law_fill_repeats_source(src: Seq<CellView>, sr: GridRange, dr: GridRange, r: int, c: int)
    requires
        sr.wf(),
        dr.wf(),
        dr.start_row <= r <= dr.end_row,
        dr.start_column <= c <= dr.end_column,
    ensures
        ({
            let clips = fill_clips(src, sr, dr);
            let p = (
                (sr.start_row + (r - dr.start_row) % (sr.end_row - sr.start_row + 1)) as u32,
                (sr.start_column + (c - dr.start_column) % (sr.end_column - sr.start_column + 1)) as u32,
            );
            &&& (exists|k: int|
                0 <= k < clips.len() && (#[trigger] clips[k]).0.0 == r - dr.start_row && clips[k].0.1 == c - dr.start_column)
                <==> pos_map(src).contains_key(p)
            &&& forall|k: int|
                0 <= k < clips.len() && (#[trigger] clips[k]).0.0 == r - dr.start_row && clips[k].0.1 == c - dr.start_column
                    ==> clips[k].0.2 == pos_map(src)[p].3 && clips[k].0.3 == pos_map(src)[p].2 && clips[k].0.4
                    == pos_map(src)[p].5 && clips[k].0.5 == pos_map(src)[p].4 && clips[k].1 == Some(
                    SpreadsheetClipboardOrigin { row: p.0, column: p.1 },
                )
        }),
{
    let m = pos_map(src);
    let clips = fill_clips(src, sr, dr);
    let p = source_at(sr, dr, r, c);
    lemma_pos_map_keys(src);
    lemma_fill_rows_members(m, sr, dr, dr.end_row + 1);
    assert forall|k: int|
        0 <= k < clips.len() && (#[trigger] clips[k]).0.0 == r - dr.start_row && clips[k].0.1 == c - dr.start_column implies m.contains_key(
        p,
    ) && clips[k] == fill_clip(m[p], r - dr.start_row, c - dr.start_column) by {
        assert(from_source(m, sr, dr, clips[k]));
    }
    if m.contains_key(p) {
        let k = choose|k: int| 0 <= k < clips.len() && #[trigger] clips[k] == fill_clip(m[p], r - dr.start_row, c - dr.start_column);
        assert(clips[k].0.0 == r - dr.start_row && clips[k].0.1 == c - dr.start_column);
    }
}

} // verus!
