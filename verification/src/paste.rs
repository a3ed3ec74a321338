//! What a paste leaves in its target range: the cells the mode keeps from
//! before, then each clipboard cell written over its position in turn.

use vstd::prelude::*;
use crate::cells::{CellValueView, opt_value_view, text_view, attrs_view, copy_opt_value, copy_text, copy_attrs};
use crate::dependency::{CellModel, SpreadsheetModel};
use crate::editing::{SpreadsheetPasteMode, SpreadsheetClipboardOrigin};
use crate::grid::GridRange;
use crate::mutation::{sorted_cells, pos_before, opt_cell_view, sorted_of, lemma_sorted_of, lemma_sorted_exists, distinct_positions};
use crate::dependency::first_sheet_with;
use crate::sheet_edits::{sheet_at, no_sheet};
use crate::sheet_edits::{SpreadsheetClipboardCell, SpreadsheetEngineError, in_range, range_cells};
use crate::viewport::{CellView, cell_view, cells_view};
use crate::commands::{normalized, normalize_cell};
use crate::xlsx::{shifted, translate_shared_formula};
use crate::sheet_name::trim;

verus! {

/// A cell's position.
pub open spec fn pos_of(c: CellView) -> (u32, u32) {
    (c.0, c.1)
}

/// The cells of a list by position; a later cell at a position wins.
pub open spec fn pos_map(s: Seq<CellView>) -> Map<(u32, u32), CellView>
    decreases s.len(),
{
    if s.len() == 0 {
        Map::empty()
    } else {
        pos_map(s.drop_last()).insert(pos_of(s.last()), s.last())
    }
}

/// What a paste in `mode` keeps of a cell that was in the target: nothing
/// when everything is pasted; its style alone when values are; its
/// contents without the style when formats are.
pub open spec fn kept_for_paste(c: CellView, mode: SpreadsheetPasteMode) -> Option<CellView> {
    match mode {
        SpreadsheetPasteMode::All => None,
        SpreadsheetPasteMode::Values => if c.4 is Some {
            Some((c.0, c.1, None, None, c.4, Seq::empty()))
        } else {
            None
        },
        SpreadsheetPasteMode::Formats => if c.3 is Some || c.2 is Some || c.5.len() > 0 {
            Some((c.0, c.1, c.2, c.3, None, c.5))
        } else {
            None
        },
    }
}

/// The kept cells of `s` by position.
pub open spec fn kept_map(s: Seq<CellView>, mode: SpreadsheetPasteMode) -> Map<(u32, u32), CellView>
    decreases s.len(),
{
    if s.len() == 0 {
        Map::empty()
    } else {
        match kept_for_paste(s.last(), mode) {
            Some(x) => kept_map(s.drop_last(), mode).insert(pos_of(x), x),
            None => kept_map(s.drop_last(), mode),
        }
    }
}

/// The formula a clipboard cell brings to `(row, column)`: copied from a
/// known origin, its relative references move by the distance; without an
/// origin it is written as it is.
pub open spec fn pasted_formula(
    f: Option<Seq<char>>,
    origin: Option<SpreadsheetClipboardOrigin>,
    row: u32,
    column: u32,
) -> Option<Seq<char>> {
    match origin {
        None => f,
        Some(o) => match f {
            Some(t) => Some(shifted(t, 0, false, row - o.row, column - o.column)),
            None => None,
        },
    }
}

/// A clipboard cell as its row and column offsets, value, formula,
/// attributes and style.
pub type ClipView = (u32, u32, Option<CellValueView>, Option<Seq<char>>, Seq<(Seq<char>, Seq<char>)>, Option<Seq<char>>);

pub open spec fn clip_view(c: SpreadsheetClipboardCell) -> ClipView {
    (c.row_offset, c.column_offset, opt_value_view(c.value), text_view(c.formula), attrs_view(c.attrs@), text_view(c.style))
}

/// Clipboard cells with the origins their formulas were copied from, by view.
pub open spec fn clip_views(cells: Seq<(SpreadsheetClipboardCell, Option<SpreadsheetClipboardOrigin>)>) -> Seq<(ClipView, Option<SpreadsheetClipboardOrigin>)> {
    cells.map_values(|e: (SpreadsheetClipboardCell, Option<SpreadsheetClipboardOrigin>)| (clip_view(e.0), e.1))
}

/// Where a clipboard cell lands in the target range.
pub open spec fn target_of(c: ClipView, range: GridRange) -> (u32, u32) {
    ((range.start_row + c.0) as u32, (range.start_column + c.1) as u32)
}

/// The cell a clipboard cell leaves at its target, given what the target
/// holds so far: everything it carries; its value and attributes under the
/// style there; or its style over the contents there.
pub open spec fn pasted_cell(
    m: Map<(u32, u32), CellView>,
    c: ClipView,
    origin: Option<SpreadsheetClipboardOrigin>,
    range: GridRange,
    mode: SpreadsheetPasteMode,
) -> Option<CellView> {
    let (row, column) = target_of(c, range);
    let there = m.contains_key((row, column));
    let e = m[(row, column)];
    match mode {
        SpreadsheetPasteMode::All => normalized(
            row,
            column,
            c.2,
            pasted_formula(c.3, origin, row, column),
            c.4,
            c.5,
        ),
        SpreadsheetPasteMode::Values => normalized(
            row,
            column,
            c.2,
            None,
            c.4,
            if there { e.4 } else { None },
        ),
        SpreadsheetPasteMode::Formats => normalized(
            row,
            column,
            if there { e.3 } else { None },
            if there { e.2 } else { None },
            if there { e.5 } else { Seq::empty() },
            c.5,
        ),
    }
}

/// The target range by position after the first `cells.len()` clipboard
/// cells are written over what `before` leaves in `mode`.
pub open spec fn paste_map(
    before: Seq<CellView>,
    cells: Seq<(ClipView, Option<SpreadsheetClipboardOrigin>)>,
    range: GridRange,
    mode: SpreadsheetPasteMode,
) -> Map<(u32, u32), CellView>
    decreases cells.len(),
{
    if cells.len() == 0 {
        kept_map(before, mode)
    } else {
        let m = paste_map(before, cells.drop_last(), range, mode);
        let (c, o) = cells.last();
        match pasted_cell(m, c, o, range, mode) {
            Some(x) => m.insert(target_of(c, range), x),
            None => m.remove(target_of(c, range)),
        }
    }
}

/// In a list without repeated positions, the map holds exactly the listed
/// cells at their positions.
pub proof fn lemma_pos_map(s: Seq<CellView>)
    requires
        sorted_cells(s),
    ensures
        forall|p: (u32, u32)| #[trigger] pos_map(s).contains_key(p) <==> exists|k: int| 0 <= k < s.len() && pos_of(s[k]) == p,
        forall|k: int| 0 <= k < s.len() ==> pos_map(s)[pos_of(#[trigger] s[k])] == s[k],
    decreases s.len(),
{
    if s.len() > 0 {
        let pre = s.drop_last();
        assert(sorted_cells(pre)) by {
            assert forall|i: int, j: int| 0 <= i < j < pre.len() implies pos_before(#[trigger] pre[i], #[trigger] pre[j]) by {
                assert(pre[i] == s[i] && pre[j] == s[j]);
            }
        }
        lemma_pos_map(pre);
        let n = s.len() - 1;
        assert(s.last() == s[n]);
        assert forall|p: (u32, u32)| #[trigger] pos_map(s).contains_key(p) <==> exists|k: int| 0 <= k < s.len() && pos_of(s[k]) == p by {
            if pos_map(pre).contains_key(p) {
                let k = choose|k: int| 0 <= k < pre.len() && pos_of(pre[k]) == p;
                assert(pos_of(s[k]) == p);
            }
            if exists|k: int| 0 <= k < s.len() && pos_of(s[k]) == p {
                let k = choose|k: int| 0 <= k < s.len() && pos_of(s[k]) == p;
                if k < n {
                    assert(pos_of(pre[k]) == p);
                }
            }
        }
        assert forall|k: int| 0 <= k < s.len() implies pos_map(s)[pos_of(#[trigger] s[k])] == s[k] by {
            if k < n {
                assert(pos_before(s[k], s[n]));
                assert(pre[k] == s[k]);
            }
        }
    }
}

/// Two lists without repeated positions that list the same cells at the
/// same positions have the same map.
proof fn lemma_pos_map_ext(s: Seq<CellView>, m: Map<(u32, u32), CellView>)
    requires
        sorted_cells(s),
        forall|p: (u32, u32)| #[trigger] m.contains_key(p) <==> exists|k: int| 0 <= k < s.len() && pos_of(s[k]) == p,
        forall|k: int| 0 <= k < s.len() ==> m[pos_of(#[trigger] s[k])] == s[k],
    ensures
        pos_map(s) == m,
{
    lemma_pos_map(s);
    assert forall|p: (u32, u32)| #[trigger] pos_map(s).contains_key(p) implies pos_map(s)[p] == m[p] by {
        let k = choose|k: int| 0 <= k < s.len() && pos_of(s[k]) == p;
    }
    assert(pos_map(s) =~= m);
}

/// The target range after a paste: the cells of `paste_map` in
/// row-then-column order.
pub open spec fn paste_result(
    before: Seq<CellView>,
    cells: Seq<(ClipView, Option<SpreadsheetClipboardOrigin>)>,
    range: GridRange,
    mode: SpreadsheetPasteMode,
) -> Seq<CellView> {
    sorted_of(paste_map(before, cells, range, mode).values())
}

/// A list without repeated positions is the ordered list of its map's cells.
pub proof fn lemma_listed(t: Seq<CellView>)
    requires
        sorted_cells(t),
    ensures
        sorted_of(pos_map(t).values()) == t,
{
    lemma_pos_map(t);
    let m = pos_map(t);
    assert forall|x: CellView| #[trigger] m.values().contains(x) <==> t.to_set().contains(x) by {
        if m.values().contains(x) {
            let p = choose|p: (u32, u32)| #[trigger] m.contains_key(p) && m[p] == x;
            let k = choose|k: int| 0 <= k < t.len() && pos_of(t[k]) == p;
            assert(t.contains(x));
        }
        if t.to_set().contains(x) {
            let k = choose|k: int| 0 <= k < t.len() && t[k] == x;
            assert(m.contains_key(pos_of(t[k])));
        }
    }
    assert(m.values() =~= t.to_set());
    lemma_sorted_of(t);
}

/// Whether `x` lies before the position `(row, column)`.
pub open spec fn before_pos(x: CellView, row: u32, column: u32) -> bool {
    x.0 < row || (x.0 == row && x.1 < column)
}

/// The first index whose cell does not lie before `(row, column)`.
fn seek(list: &Vec<CellModel>, row: u32, column: u32) -> (res: usize)
    requires
        sorted_cells(cells_view(list@)),
    ensures
        res <= list@.len(),
        forall|k: int| 0 <= k < res ==> before_pos(#[trigger] cells_view(list@)[k], row, column),
        forall|k: int| res <= k < list@.len() ==> !before_pos(#[trigger] cells_view(list@)[k], row, column),
{
    let ghost s = cells_view(list@);
    let mut k: usize = 0;
    while k < list.len()
        invariant
            k <= list@.len(),
            s == cells_view(list@),
            sorted_cells(s),
            forall|j: int| 0 <= j < k ==> before_pos(#[trigger] s[j], row, column),
        decreases list@.len() - k,
    {
        proof {
            assert(s[k as int] == cell_view(list@[k as int]));
        }
        if !(list[k].row < row || (list[k].row == row && list[k].column < column)) {
            proof {
                assert forall|j: int| k <= j < list@.len() implies !before_pos(#[trigger] s[j], row, column) by {
                    if j > k {
                        assert(pos_before(s[k as int], s[j]));
                    }
                }
            }
            return k;
        }
        k += 1;
    }
    k
}

/// Writes `cell` at its position, over any cell there.
fn upsert(list: &mut Vec<CellModel>, cell: CellModel)
    requires
        sorted_cells(cells_view(old(list)@)),
    ensures
        sorted_cells(cells_view(final(list)@)),
        pos_map(cells_view(final(list)@)) == pos_map(cells_view(old(list)@)).insert((cell.row, cell.column), cell_view(cell)),
{
    let ghost s = cells_view(list@);
    let ghost x = cell_view(cell);
    let ghost p = (cell.row, cell.column);
    proof {
        lemma_pos_map(s);
    }
    let k = seek(list, cell.row, cell.column);
    let replace = k < list.len() && list[k].row == cell.row && list[k].column == cell.column;
    proof {
        if k < list@.len() {
            assert(s[k as int] == cell_view(list@[k as int]));
        }
    }
    if replace {
        list.set(k, cell);
    } else {
        list.insert(k, cell);
    }
    let ghost t = cells_view(list@);
    proof {
        if replace {
            assert(t =~= s.update(k as int, x));
        } else {
            assert(t =~= s.insert(k as int, x));
        }
        assert(sorted_cells(t)) by {
            assert forall|i: int, j: int| 0 <= i < j < t.len() implies pos_before(#[trigger] t[i], #[trigger] t[j]) by {
                if replace {
                    if i == k {
                        assert(s[j] == t[j]);
                        if j > k {
                            assert(pos_before(s[k as int], s[j]));
                        }
                    } else if j == k {
                        assert(s[i] == t[i]);
                    } else {
                        assert(s[i] == t[i] && s[j] == t[j]);
                    }
                } else {
                    if i == k {
                        assert(t[j] == s[j - 1]);
                        assert(!before_pos(s[j - 1], cell.row, cell.column));
                        assert(!(s[j - 1].0 == cell.row && s[j - 1].1 == cell.column)) by {
                            if j - 1 > k {
                                assert(pos_before(s[k as int], s[j - 1]));
                            }
                        }
                    } else if j == k {
                        assert(t[i] == s[i]);
                    } else if i < k && j > k {
                        assert(t[i] == s[i] && t[j] == s[j - 1]);
                    } else if j < k {
                        assert(t[i] == s[i] && t[j] == s[j]);
                    } else {
                        assert(t[i] == s[i - 1] && t[j] == s[j - 1]);
                    }
                }
            }
        }
        let m = pos_map(s).insert(p, x);
        assert forall|q: (u32, u32)| #[trigger] m.contains_key(q) <==> exists|j: int| 0 <= j < t.len() && pos_of(t[j]) == q by {
            if m.contains_key(q) {
                if q == p {
                    assert(pos_of(t[k as int]) == q);
                } else {
                    let j = choose|j: int| 0 <= j < s.len() && pos_of(s[j]) == q;
                    if replace {
                        assert(pos_of(t[j]) == q);
                    } else if j < k {
                        assert(pos_of(t[j]) == q);
                    } else {
                        assert(pos_of(t[j + 1]) == q);
                    }
                }
            }
            if exists|j: int| 0 <= j < t.len() && pos_of(t[j]) == q {
                let j = choose|j: int| 0 <= j < t.len() && pos_of(t[j]) == q;
                if q != p {
                    if replace {
                        assert(j != k);
                        assert(pos_of(s[j]) == q);
                    } else if j < k {
                        assert(pos_of(s[j]) == q);
                    } else {
                        assert(j != k);
                        assert(pos_of(s[j - 1]) == q);
                    }
                }
            }
        }
        assert forall|j: int| 0 <= j < t.len() implies m[pos_of(#[trigger] t[j])] == t[j] by {
            if j != k {
                if replace {
                    assert(t[j] == s[j]);
                    assert(pos_of(s[j]) != p) by {
                        if j < k {
                            assert(pos_before(s[j], s[k as int]));
                        } else {
                            assert(pos_before(s[k as int], s[j]));
                        }
                    }
                } else if j < k {
                    assert(t[j] == s[j]);
                    assert(before_pos(s[j], cell.row, cell.column));
                } else {
                    assert(t[j] == s[j - 1]);
                    assert(!before_pos(s[j - 1], cell.row, cell.column));
                    assert(pos_of(s[j - 1]) != p) by {
                        if j - 1 > k {
                            assert(pos_before(s[k as int], s[j - 1]));
                        }
                    }
                }
            }
        }
        lemma_pos_map_ext(t, m);
    }
}

/// Removes the cell at `(row, column)`, if any.
fn remove_at(list: &mut Vec<CellModel>, row: u32, column: u32)
    requires
        sorted_cells(cells_view(old(list)@)),
    ensures
        sorted_cells(cells_view(final(list)@)),
        pos_map(cells_view(final(list)@)) == pos_map(cells_view(old(list)@)).remove((row, column)),
{
    let ghost s = cells_view(list@);
    let ghost p = (row, column);
    proof {
        lemma_pos_map(s);
    }
    let k = seek(list, row, column);
    proof {
        if k < list@.len() {
            assert(s[k as int] == cell_view(list@[k as int]));
        }
    }
    if k < list.len() && list[k].row == row && list[k].column == column {
        list.remove(k);
        let ghost t = cells_view(list@);
        proof {
            assert(t =~= s.remove(k as int));
            assert(sorted_cells(t)) by {
                assert forall|i: int, j: int| 0 <= i < j < t.len() implies pos_before(#[trigger] t[i], #[trigger] t[j]) by {
                    if j < k {
                        assert(t[i] == s[i] && t[j] == s[j]);
                    } else if i < k {
                        assert(t[i] == s[i] && t[j] == s[j + 1]);
                    } else {
                        assert(t[i] == s[i + 1] && t[j] == s[j + 1]);
                    }
                }
            }
            let m = pos_map(s).remove(p);
            assert forall|q: (u32, u32)| #[trigger] m.contains_key(q) <==> exists|j: int| 0 <= j < t.len() && pos_of(t[j]) == q by {
                if m.contains_key(q) {
                    let j = choose|j: int| 0 <= j < s.len() && pos_of(s[j]) == q;
                    assert(j != k);
                    if j < k {
                        assert(pos_of(t[j]) == q);
                    } else {
                        assert(pos_of(t[j - 1]) == q);
                    }
                }
                if exists|j: int| 0 <= j < t.len() && pos_of(t[j]) == q {
                    let j = choose|j: int| 0 <= j < t.len() && pos_of(t[j]) == q;
                    if j < k {
                        assert(pos_of(s[j]) == q);
                        assert(pos_before(s[j], s[k as int]));
                    } else {
                        assert(pos_of(s[j + 1]) == q);
                        assert(pos_before(s[k as int], s[j + 1]));
                    }
                }
            }
            assert forall|j: int| 0 <= j < t.len() implies m[pos_of(#[trigger] t[j])] == t[j] by {
                if j < k {
                    assert(t[j] == s[j]);
                    assert(pos_before(s[j], s[k as int]));
                } else {
                    assert(t[j] == s[j + 1]);
                    assert(pos_before(s[k as int], s[j + 1]));
                }
            }
            lemma_pos_map_ext(t, m);
        }
    } else {
        proof {
            assert(!pos_map(s).contains_key(p)) by {
                if pos_map(s).contains_key(p) {
                    let j = choose|j: int| 0 <= j < s.len() && pos_of(s[j]) == p;
                    if j < k {
                        assert(before_pos(s[j], row, column));
                    } else {
                        assert(!before_pos(s[j], row, column));
                        if j > k {
                            assert(pos_before(s[k as int], s[j]));
                        }
                    }
                }
            }
            assert(pos_map(s).remove(p) =~= pos_map(s));
        }
    }
}

/// What a paste in `mode` keeps of a cell that was in the target.
fn kept_cell(c: &CellModel, mode: SpreadsheetPasteMode) -> (res: Option<CellModel>)
    ensures
        opt_cell_view(res) == kept_for_paste(cell_view(*c), mode),
{
    match mode {
        SpreadsheetPasteMode::All => None,
        SpreadsheetPasteMode::Values => match &c.style {
            Some(st) => {
                let r = CellModel { row: c.row, column: c.column, value: None, formula: None, attrs: Vec::new(), style: Some(st.clone()) };
                proof {
                    assert(attrs_view(r.attrs@) =~= Seq::<(Seq<char>, Seq<char>)>::empty());
                }
                Some(r)
            },
            None => None,
        },
        SpreadsheetPasteMode::Formats => {
            proof {
                assert(attrs_view(c.attrs@).len() == c.attrs@.len());
            }
            if c.value.is_some() || c.formula.is_some() || c.attrs.len() > 0 {
                Some(
                    CellModel {
                        row: c.row,
                        column: c.column,
                        value: copy_opt_value(&c.value),
                        formula: copy_text(&c.formula),
                        attrs: copy_attrs(&c.attrs),
                        style: None,
                    },
                )
            } else {
                None
            }
        },
    }
}

/// The index of the cell at `(row, column)` in a list without repeated positions.
pub(crate) fn find_at(list: &Vec<CellModel>, row: u32, column: u32) -> (res: Option<usize>)
    requires
        sorted_cells(cells_view(list@)),
    ensures
        match res {
            Some(j) => j < list@.len() && pos_map(cells_view(list@)).contains_key((row, column))
                && pos_map(cells_view(list@))[(row, column)] == cell_view(list@[j as int]),
            None => !pos_map(cells_view(list@)).contains_key((row, column)),
        },
{
    let ghost s = cells_view(list@);
    proof {
        lemma_pos_map(s);
    }
    let k = seek(list, row, column);
    proof {
        if k < list@.len() {
            assert(s[k as int] == cell_view(list@[k as int]));
        }
    }
    if k < list.len() && list[k].row == row && list[k].column == column {
        proof {
            assert(pos_of(s[k as int]) == (row, column));
        }
        Some(k)
    } else {
        proof {
            if pos_map(s).contains_key((row, column)) {
                let j = choose|j: int| 0 <= j < s.len() && pos_of(s[j]) == (row, column);
                if j > k {
                    assert(pos_before(s[k as int], s[j]));
                }
            }
        }
        None
    }
}

/// The formula a clipboard cell brings to `(row, column)`.
fn paste_formula(f: &Option<String>, origin: Option<SpreadsheetClipboardOrigin>, row: u32, column: u32) -> (res: Option<String>)
    ensures
        text_view(res) == pasted_formula(text_view(*f), origin, row, column),
{
    match origin {
        None => copy_text(f),
        Some(o) => match f {
            Some(t) => Some(translate_shared_formula(t.as_str(), row as i64 - o.row as i64, column as i64 - o.column as i64)),
            None => None,
        },
    }
}

/// The cell a clipboard cell leaves at its target, given the list so far.
fn paste_one(
    list: &Vec<CellModel>,
    c: &SpreadsheetClipboardCell,
    origin: Option<SpreadsheetClipboardOrigin>,
    range: GridRange,
    mode: SpreadsheetPasteMode,
) -> (res: Option<CellModel>)
    requires
        sorted_cells(cells_view(list@)),
        range.start_row + c.row_offset <= u32::MAX,
        range.start_column + c.column_offset <= u32::MAX,
    ensures
        opt_cell_view(res) == pasted_cell(pos_map(cells_view(list@)), clip_view(*c), origin, range, mode),
{
    let row = range.start_row + c.row_offset;
    let column = range.start_column + c.column_offset;
    let here = find_at(list, row, column);
    match mode {
        SpreadsheetPasteMode::All => {
            let f = paste_formula(&c.formula, origin, row, column);
            normalize_cell(row, column, &c.value, &f, &c.attrs, copy_text(&c.style))
        },
        SpreadsheetPasteMode::Values => {
            let style = match here {
                Some(j) => copy_text(&list[j].style),
                None => None,
            };
            normalize_cell(row, column, &c.value, &None, &c.attrs, style)
        },
        SpreadsheetPasteMode::Formats => match here {
            Some(j) => {
                let e = &list[j];
                normalize_cell(row, column, &e.value, &e.formula, &e.attrs, copy_text(&c.style))
            },
            None => {
                let none: Vec<(String, String)> = Vec::new();
                proof {
                    assert(attrs_view(none@) =~= Seq::<(Seq<char>, Seq<char>)>::empty());
                }
                normalize_cell(row, column, &None, &None, &none, copy_text(&c.style))
            },
        },
    }
}

/// The cells of the target range before a paste, and after it: the cells
/// the mode keeps from before, then each clipboard cell, in order, written
/// over its position in the range (a cell left with nothing is removed).
/// A formula copied from a known origin has its relative references moved
/// by the distance from the origin to its target.
pub fn build_paste_after(
    model: &SpreadsheetModel,
    sheet_id: &str,
    range: GridRange,
    cells: Vec<(SpreadsheetClipboardCell, Option<SpreadsheetClipboardOrigin>)>,
    mode: SpreadsheetPasteMode,
) -> (res: Result<(Vec<CellModel>, Vec<CellModel>), SpreadsheetEngineError>)
    requires
        forall|k: int|
            0 <= k < cells@.len() ==> range.start_row + (#[trigger] cells@[k]).0.row_offset <= u32::MAX
                && range.start_column + cells@[k].0.column_offset <= u32::MAX,
    ensures
        no_sheet(*model, sheet_id@) ==> (res matches Err(e) && e matches SpreadsheetEngineError::MissingSheet(s) && s@ == sheet_id@),
        !no_sheet(*model, sheet_id@) ==> (res matches Ok((before, after)) && exists|i: int|
            first_sheet_with(*model, sheet_id@, i) && cells_view(before@) == cells_view(model.sheets@[i].cells@).filter(
                in_range(range),
            ) && sorted_cells(cells_view(after@)) && pos_map(cells_view(after@)) == paste_map(
                cells_view(before@),
                clip_views(cells@),
                range,
                mode,
            ) && cells_view(after@) == paste_result(cells_view(before@), clip_views(cells@), range, mode)),
{
    let sheet = match sheet_at(model, sheet_id) {
        Err(e) => {
            return Err(e);
        },
        Ok(s) => s,
    };
    let before = range_cells(sheet, range);
    let ghost bv = cells_view(before@);
    let mut after: Vec<CellModel> = Vec::new();
    let mut k: usize = 0;
    proof {
        assert(bv.take(0) =~= Seq::<CellView>::empty());
        assert(cells_view(after@) =~= Seq::<CellView>::empty());
        assert(pos_map(cells_view(after@)) =~= Map::<(u32, u32), CellView>::empty());
    }
    while k < before.len()
        invariant
            k <= before@.len(),
            bv == cells_view(before@),
            sorted_cells(cells_view(after@)),
            pos_map(cells_view(after@)) == kept_map(bv.take(k as int), mode),
        decreases before@.len() - k,
    {
        proof {
            assert(bv.take(k + 1).drop_last() =~= bv.take(k as int));
            assert(bv.take(k + 1).last() == cell_view(before@[k as int]));
        }
        match kept_cell(&before[k], mode) {
            Some(x) => upsert(&mut after, x),
            None => {},
        }
        k += 1;
    }
    let ghost cv = clip_views(cells@);
    proof {
        assert(bv.take(before@.len() as int) =~= bv);
        assert(cv.take(0) =~= Seq::<(ClipView, Option<SpreadsheetClipboardOrigin>)>::empty());
    }
    let mut j: usize = 0;
    while j < cells.len()
        invariant
            j <= cells@.len(),
            bv == cells_view(before@),
            sorted_cells(cells_view(after@)),
            cv == clip_views(cells@),
            pos_map(cells_view(after@)) == paste_map(bv, cv.take(j as int), range, mode),
            forall|k: int|
                0 <= k < cells@.len() ==> range.start_row + (#[trigger] cells@[k]).0.row_offset <= u32::MAX
                    && range.start_column + cells@[k].0.column_offset <= u32::MAX,
        decreases cells@.len() - j,
    {
        let (c, o) = &cells[j];
        proof {
            assert(cv.take(j + 1).drop_last() =~= cv.take(j as int));
            assert(cv.take(j + 1).last() == (clip_view(*c), *o));
        }
        let next = paste_one(&after, c, *o, range, mode);
        match next {
            Some(x) => upsert(&mut after, x),
            None => remove_at(&mut after, range.start_row + c.row_offset, range.start_column + c.column_offset),
        }
        j += 1;
    }
    proof {
        assert(cv.take(cells@.len() as int) =~= cv);
        lemma_listed(cells_view(after@));
    }
    Ok((before, after))
}

/// The cells a paste keeps from before sit at their own positions, which are
/// in the range, and there are finitely many.
proof fn lemma_kept_map_facts(before: Seq<CellView>, range: GridRange, mode: SpreadsheetPasteMode)
    requires
        forall|k: int| 0 <= k < before.len() ==> range.spec_contains((#[trigger] before[k]).0 as int, before[k].1 as int),
    ensures
        kept_map(before, mode).dom().finite(),
        forall|p: (u32, u32)| #[trigger] kept_map(before, mode).contains_key(p) ==> pos_of(kept_map(before, mode)[p]) == p
            && range.spec_contains(p.0 as int, p.1 as int),
    decreases before.len(),
{
    if before.len() > 0 {
        let pre = before.drop_last();
        assert forall|k: int| 0 <= k < pre.len() implies range.spec_contains((#[trigger] pre[k]).0 as int, pre[k].1 as int) by {
            assert(pre[k] == before[k]);
        }
        lemma_kept_map_facts(pre, range, mode);
        assert(before.last() == before[before.len() - 1]);
    }
}

/// Each cell a paste leaves sits at its own position inside the range, and
/// there are finitely many.
proof fn lemma_paste_map_facts(
    before: Seq<CellView>,
    cells: Seq<(ClipView, Option<SpreadsheetClipboardOrigin>)>,
    range: GridRange,
    mode: SpreadsheetPasteMode,
)
    requires
        forall|k: int| 0 <= k < before.len() ==> range.spec_contains((#[trigger] before[k]).0 as int, before[k].1 as int),
        forall|k: int|
            0 <= k < cells.len() ==> range.spec_contains(
                target_of((#[trigger] cells[k]).0, range).0 as int,
                target_of(cells[k].0, range).1 as int,
            ),
    ensures
        paste_map(before, cells, range, mode).dom().finite(),
        forall|p: (u32, u32)| #[trigger] paste_map(before, cells, range, mode).contains_key(p) ==> pos_of(
            paste_map(before, cells, range, mode)[p],
        ) == p && range.spec_contains(p.0 as int, p.1 as int),
    decreases cells.len(),
{
    if cells.len() == 0 {
        lemma_kept_map_facts(before, range, mode);
    } else {
        let pre = cells.drop_last();
        assert forall|k: int|
            0 <= k < pre.len() implies range.spec_contains(
            target_of((#[trigger] pre[k]).0, range).0 as int,
            target_of(pre[k].0, range).1 as int,
        ) by {
            assert(pre[k] == cells[k]);
        }
        lemma_paste_map_facts(before, pre, range, mode);
        assert(cells.last() == cells[cells.len() - 1]);
    }
}

/// What a paste leaves is a list in row-then-column order of cells inside
/// the range, one per position.
pub proof fn lemma_paste_result(
    before: Seq<CellView>,
    cells: Seq<(ClipView, Option<SpreadsheetClipboardOrigin>)>,
    range: GridRange,
    mode: SpreadsheetPasteMode,
)
    requires
        forall|k: int| 0 <= k < before.len() ==> range.spec_contains((#[trigger] before[k]).0 as int, before[k].1 as int),
        forall|k: int|
            0 <= k < cells.len() ==> range.spec_contains(
                target_of((#[trigger] cells[k]).0, range).0 as int,
                target_of(cells[k].0, range).1 as int,
            ),
    ensures
        sorted_cells(paste_result(before, cells, range, mode)),
        forall|k: int|
            0 <= k < paste_result(before, cells, range, mode).len() ==> range.spec_contains(
                (#[trigger] paste_result(before, cells, range, mode)[k]).0 as int,
                paste_result(before, cells, range, mode)[k].1 as int,
            ),
{
    let m = paste_map(before, cells, range, mode);
    lemma_paste_map_facts(before, cells, range, mode);
    vstd::map_lib::lemma_values_finite(m);
    assert(distinct_positions(m.values())) by {
        assert forall|a: CellView, b: CellView|
            m.values().contains(a) && m.values().contains(b) && a.0 == b.0 && a.1 == b.1 implies a == b by {
            let pa = choose|p: (u32, u32)| #[trigger] m.contains_key(p) && m[p] == a;
            let pb = choose|p: (u32, u32)| #[trigger] m.contains_key(p) && m[p] == b;
            assert(pos_of(m[pa]) == pa);
            assert(pos_of(m[pb]) == pb);
        }
    }
    lemma_sorted_exists(m.values());
    let t = paste_result(before, cells, range, mode);
    assert forall|k: int| 0 <= k < t.len() implies range.spec_contains((#[trigger] t[k]).0 as int, t[k].1 as int) by {
        assert(t.to_set().contains(t[k]));
        assert(m.values().contains(t[k]));
        let p = choose|p: (u32, u32)| #[trigger] m.contains_key(p) && m[p] == t[k];
        assert(pos_of(m[p]) == p);
    }
}

/// The style of the cell at `p` in `s`, if there is one.
pub open spec fn style_at(s: Seq<CellView>, p: (u32, u32)) -> Option<Seq<char>> {
    if pos_map(s).contains_key(p) {
        pos_map(s)[p].4
    } else {
        None
    }
}

proof fn lemma_kept_styles(before: Seq<CellView>)
    requires
        sorted_cells(before),
    ensures
        forall|p: (u32, u32)| #[trigger] kept_map(before, SpreadsheetPasteMode::Values).contains_key(p) ==> kept_map(
            before,
            SpreadsheetPasteMode::Values,
        )[p].4 == style_at(before, p),
        forall|p: (u32, u32)| style_at(before, p) is Some ==> #[trigger] kept_map(before, SpreadsheetPasteMode::Values).contains_key(p),
    decreases before.len(),
{
    if before.len() > 0 {
        let pre = before.drop_last();
        assert(sorted_cells(pre)) by {
            assert forall|i: int, j: int| 0 <= i < j < pre.len() implies pos_before(#[trigger] pre[i], #[trigger] pre[j]) by {
                assert(pre[i] == before[i] && pre[j] == before[j]);
            }
        }
        lemma_kept_styles(pre);
        lemma_pos_map(pre);
        let c = before.last();
        let q = pos_of(c);
        assert(c == before[before.len() - 1]);
        assert(!pos_map(pre).contains_key(q)) by {
            if pos_map(pre).contains_key(q) {
                let k = choose|k: int| 0 <= k < pre.len() && pos_of(pre[k]) == q;
                assert(pos_before(before[k], before[before.len() - 1]));
            }
        }
        let km = kept_map(before, SpreadsheetPasteMode::Values);
        assert forall|p: (u32, u32)| #[trigger] km.contains_key(p) implies km[p].4 == style_at(before, p) by {
            if p != q {
                assert(pos_map(before).contains_key(p) == pos_map(pre).contains_key(p));
            }
        }
        assert forall|p: (u32, u32)| style_at(before, p) is Some implies #[trigger] km.contains_key(p) by {
            if p != q {
                assert(style_at(before, p) == style_at(pre, p));
            }
        }
    }
}

/// A paste of values keeps the target's styles: every cell it leaves has
/// the style the cell at its position had before (none where there was no
/// cell), and no styled cell goes away.
pub proof fn law_values_paste_keeps_styles(
    before: Seq<CellView>,
    cells: Seq<(ClipView, Option<SpreadsheetClipboardOrigin>)>,
    range: GridRange,
)
    requires
        sorted_cells(before),
    ensures
        forall|p: (u32, u32)| #[trigger] paste_map(before, cells, range, SpreadsheetPasteMode::Values).contains_key(p) ==> paste_map(
            before,
            cells,
            range,
            SpreadsheetPasteMode::Values,
        )[p].4 == style_at(before, p),
        forall|p: (u32, u32)| style_at(before, p) is Some ==> #[trigger] paste_map(before, cells, range, SpreadsheetPasteMode::Values).contains_key(p),
    decreases cells.len(),
{
    if cells.len() == 0 {
        lemma_kept_styles(before);
    } else {
        law_values_paste_keeps_styles(before, cells.drop_last(), range);
    }
}

/// The value, formula and attributes of the cell at `p` in `s`; nothing
/// where there is no cell.
pub open spec fn contents_at(s: Seq<CellView>, p: (u32, u32)) -> (Option<CellValueView>, Option<Seq<char>>, Seq<(Seq<char>, Seq<char>)>) {
    if pos_map(s).contains_key(p) {
        (pos_map(s)[p].3, pos_map(s)[p].2, pos_map(s)[p].5)
    } else {
        (None, None, Seq::empty())
    }
}

/// The cell holds a value, a formula or attributes.
pub open spec fn has_contents(x: (Option<CellValueView>, Option<Seq<char>>, Seq<(Seq<char>, Seq<char>)>)) -> bool {
    x.0 is Some || x.1 is Some || x.2.len() > 0
}

proof fn lemma_kept_contents(before: Seq<CellView>)
    requires
        sorted_cells(before),
    ensures
        forall|p: (u32, u32)| #[trigger] kept_map(before, SpreadsheetPasteMode::Formats).contains_key(p) ==> {
            let x = kept_map(before, SpreadsheetPasteMode::Formats)[p];
            (x.3, x.2, x.5) == contents_at(before, p) && has_contents((x.3, x.2, x.5))
        },
        forall|p: (u32, u32)| has_contents(contents_at(before, p)) ==> #[trigger] kept_map(before, SpreadsheetPasteMode::Formats).contains_key(p),
    decreases before.len(),
{
    if before.len() > 0 {
        let pre = before.drop_last();
        assert(sorted_cells(pre)) by {
            assert forall|i: int, j: int| 0 <= i < j < pre.len() implies pos_before(#[trigger] pre[i], #[trigger] pre[j]) by {
                assert(pre[i] == before[i] && pre[j] == before[j]);
            }
        }
        lemma_kept_contents(pre);
        lemma_pos_map(pre);
        let c = before.last();
        let q = pos_of(c);
        assert(c == before[before.len() - 1]);
        assert(!pos_map(pre).contains_key(q)) by {
            if pos_map(pre).contains_key(q) {
                let k = choose|k: int| 0 <= k < pre.len() && pos_of(pre[k]) == q;
                assert(pos_before(before[k], before[before.len() - 1]));
            }
        }
        let km = kept_map(before, SpreadsheetPasteMode::Formats);
        assert forall|p: (u32, u32)| #[trigger] km.contains_key(p) implies (km[p].3, km[p].2, km[p].5) == contents_at(before, p)
            && has_contents((km[p].3, km[p].2, km[p].5)) by {
            if p != q {
                assert(contents_at(before, p) == contents_at(pre, p));
                assert(kept_map(pre, SpreadsheetPasteMode::Formats).contains_key(p));
                assert(km[p] == kept_map(pre, SpreadsheetPasteMode::Formats)[p]);
            } else {
                assert(pos_map(before)[q] == c);
                assert(contents_at(before, q) == (c.3, c.2, c.5));
                if kept_for_paste(c, SpreadsheetPasteMode::Formats) is Some {
                    assert(km == kept_map(pre, SpreadsheetPasteMode::Formats).insert(q, kept_for_paste(c, SpreadsheetPasteMode::Formats)->0));
                    assert(km[q] == (c.0, c.1, c.2, c.3, None::<Seq<char>>, c.5));
                }
                if kept_for_paste(c, SpreadsheetPasteMode::Formats) is None {
                    assert(kept_map(pre, SpreadsheetPasteMode::Formats).contains_key(q));
                    assert(contents_at(pre, q) == (None::<CellValueView>, None::<Seq<char>>, Seq::<(Seq<char>, Seq<char>)>::empty()));
                }
            }
        }
        assert forall|p: (u32, u32)| has_contents(contents_at(before, p)) implies #[trigger] km.contains_key(p) by {
            if p != q {
                assert(contents_at(before, p) == contents_at(pre, p));
                assert(kept_map(pre, SpreadsheetPasteMode::Formats).contains_key(p));
            } else {
                assert(pos_map(before)[q] == c);
                assert(kept_for_paste(c, SpreadsheetPasteMode::Formats) is Some);
            }
        }
    }
}

/// A paste of formats keeps the target's contents: every cell it leaves
/// holds the value, formula and attributes the cell at its position held
/// before (none where there was no cell), and no cell with contents goes
/// away. The target's formulas are not blank, as the engine stores them.
pub proof fn law_formats_paste_keeps_contents(
    before: Seq<CellView>,
    cells: Seq<(ClipView, Option<SpreadsheetClipboardOrigin>)>,
    range: GridRange,
)
    requires
        sorted_cells(before),
        forall|k: int| 0 <= k < before.len() ==> ((#[trigger] before[k]).2 matches Some(t) ==> trim(t).len() > 0),
    ensures
        forall|p: (u32, u32)| #[trigger] paste_map(before, cells, range, SpreadsheetPasteMode::Formats).contains_key(p) ==> {
            let x = paste_map(before, cells, range, SpreadsheetPasteMode::Formats)[p];
            (x.3, x.2, x.5) == contents_at(before, p)
        },
        forall|p: (u32, u32)| has_contents(contents_at(before, p)) ==> #[trigger] paste_map(before, cells, range, SpreadsheetPasteMode::Formats).contains_key(p),
    decreases cells.len(),
{
    if cells.len() == 0 {
        lemma_kept_contents(before);
    } else {
        let fm = SpreadsheetPasteMode::Formats;
        law_formats_paste_keeps_contents(before, cells.drop_last(), range);
        lemma_pos_map(before);
        let (c, o) = cells.last();
        let t = target_of(c, range);
        let m = paste_map(before, cells.drop_last(), range, fm);
        let r = paste_map(before, cells, range, fm);
        let there = m.contains_key(t);
        if pos_map(before).contains_key(t) {
            let k = choose|k: int| 0 <= k < before.len() && pos_of(before[k]) == t;
            assert(pos_map(before)[t] == before[k]);
        }
        if !there {
            assert(!has_contents(contents_at(before, t)));
            assert(contents_at(before, t).2 =~= Seq::<(Seq<char>, Seq<char>)>::empty());
        }
        assert forall|p: (u32, u32)| #[trigger] r.contains_key(p) implies (r[p].3, r[p].2, r[p].5) == contents_at(before, p) by {
            if p != t {
                assert(m.contains_key(p));
                assert(r[p] == m[p]);
            }
        }
        assert forall|p: (u32, u32)| has_contents(contents_at(before, p)) implies #[trigger] r.contains_key(p) by {
            assert(m.contains_key(p));
            if p == t {
                assert(pasted_cell(m, c, o, range, fm) is Some);
            }
        }
    }
}

} // verus!
