//! The evaluator's workbook side: the sheets a formula's sheet names mean,
//! the materialised cell an address denotes, and the cells a full
//! calculation visits. Cell values are floating point and are computed
//! outside the library.

use vstd::prelude::*;
use crate::address::{CellAddress, Addr, av, copy_addr};
use crate::addr_set::views;
use crate::a1::Reference;
use crate::dependency::{SpreadsheetModel, SheetModel, CellModel, sheet_table, spec_lookup, clash_sheet, first_sheet_with, first_cell_at};
use crate::sheet_name::{SheetLookup, normalize, normalize_chars};
use crate::parser::{Expr, FormulaCalculationError, RefView, ref_view};
use crate::text::{chars_of, same_text};

verus! {

/// The addresses of a sheet's cells, in order.
pub open spec fn sheet_addrs(sheet: SheetModel) -> Seq<Addr> {
    sheet.cells@.map_values(|c: CellModel| (sheet.id@, c.row, c.column))
}

/// The addresses of every materialised cell, sheet by sheet.
pub open spec fn model_addrs(sheets: Seq<SheetModel>) -> Seq<Addr>
    decreases sheets.len(),
{
    if sheets.len() == 0 {
        Seq::empty()
    } else {
        model_addrs(sheets.drop_last()) + sheet_addrs(sheets.last())
    }
}

/// Every materialised cell's address, sheet by sheet and cell by cell.
pub fn materialized_addresses(model: &SpreadsheetModel) -> (res: Vec<CellAddress>)
    ensures
        views(res@) == model_addrs(model.sheets@),
{
    let mut out: Vec<CellAddress> = Vec::new();
    let mut i: usize = 0;
    while i < model.sheets.len()
        invariant
            i <= model.sheets@.len(),
            views(out@) == model_addrs(model.sheets@.subrange(0, i as int)),
        decreases model.sheets@.len() - i,
    {
        let sheet = &model.sheets[i];
        let ghost before = views(out@);
        let mut j: usize = 0;
        while j < sheet.cells.len()
            invariant
                sheet == model.sheets@[i as int],
                j <= sheet.cells@.len(),
                views(out@) == before + sheet_addrs(*sheet).subrange(0, j as int),
            decreases sheet.cells@.len() - j,
        {
            let cell = &sheet.cells[j];
            let ghost prev = out@;
            out.push(CellAddress { sheet_id: sheet.id.clone(), row: cell.row, column: cell.column });
            proof {
                crate::addr_set::lemma_views_push(prev, out@.last());
                assert(out@ == prev.push(out@.last()));
                assert(views(out@) =~= before + sheet_addrs(*sheet).subrange(0, j + 1));
            }
            j += 1;
        }
        proof {
            let done = model.sheets@.subrange(0, i + 1);
            assert(done.drop_last() =~= model.sheets@.subrange(0, i as int));
            assert(sheet_addrs(*sheet).subrange(0, j as int) =~= sheet_addrs(*sheet));
        }
        i += 1;
    }
    proof {
        assert(model.sheets@.subrange(0, i as int) =~= model.sheets@);
    }
    out
}

/// `sheet` holds cell `j` at (`row`, `column`).
pub open spec fn holds_at(model: SpreadsheetModel, a: Addr, i: int, j: int) -> bool {
    first_sheet_with(model, a.0, i) && first_cell_at(model.sheets@[i], a.1, a.2, j)
}

/// The cell the snapshot holds at `a`: the first cell at its row and column
/// in the first sheet with its id.
pub open spec fn holds_cell(model: SpreadsheetModel, a: Addr) -> bool {
    exists|i: int, j: int| holds_at(model, a, i, j)
}

/// `(row, column)` order of cells.
pub open spec fn cell_before(x: CellModel, y: CellModel) -> bool {
    x.row < y.row || (x.row == y.row && x.column < y.column)
}

pub open spec fn cells_sorted(cells: Seq<CellModel>) -> bool {
    forall|a: int, b: int| 0 <= a < b < cells.len() ==> cell_before(#[trigger] cells[a], #[trigger] cells[b])
}

/// Whether the cells are in strictly increasing `(row, column)` order.
fn sorted_cells(cells: &Vec<CellModel>) -> (res: bool)
    ensures
        res == cells_sorted(cells@),
{
    let n = cells.len();
    if n < 2 {
        return true;
    }
    let mut i: usize = 1;
    while i < n
        invariant
            1 <= i <= n == cells@.len(),
            forall|a: int, b: int| 0 <= a < b < i ==> cell_before(#[trigger] cells@[a], #[trigger] cells@[b]),
        decreases n - i,
    {
        let p = &cells[i - 1];
        let q = &cells[i];
        if !(p.row < q.row || (p.row == q.row && p.column < q.column)) {
            return false;
        }
        proof {
            assert forall|a: int, b: int| 0 <= a < b < i + 1 implies cell_before(#[trigger] cells@[a], #[trigger] cells@[b]) by {
                if b == i && a < i - 1 {
                    assert(cell_before(cells@[a], cells@[i - 1]));
                }
            }
        }
        i += 1;
    }
    true
}

/// The index of the cell at (`row`, `column`) in sorted cells.
fn search_sorted(cells: &Vec<CellModel>, row: u32, column: u32) -> (res: Option<usize>)
    requires
        cells_sorted(cells@),
    ensures
        match res {
            Some(j) => j < cells@.len() && cells@[j as int].row == row && cells@[j as int].column == column,
            None => forall|k: int| 0 <= k < cells@.len() ==> !((#[trigger] cells@[k]).row == row && cells@[k].column == column),
        },
{
    let mut lo: usize = 0;
    let mut hi: usize = cells.len();
    while lo < hi
        invariant
            0 <= lo <= hi <= cells@.len(),
            cells_sorted(cells@),
            forall|k: int| 0 <= k < lo ==> (#[trigger] cells@[k]).row < row || (cells@[k].row == row && cells@[k].column < column),
            forall|k: int| hi <= k < cells@.len() ==> row < (#[trigger] cells@[k]).row || (cells@[k].row == row && column < cells@[k].column),
        decreases hi - lo,
    {
        let mid = lo + (hi - lo) / 2;
        let c = &cells[mid];
        if c.row == row && c.column == column {
            return Some(mid);
        }
        if c.row < row || (c.row == row && c.column < column) {
            proof {
                assert forall|k: int| 0 <= k < mid + 1 implies (#[trigger] cells@[k]).row < row || (cells@[k].row == row && cells@[k].column < column) by {
                    if k < mid {
                        assert(cell_before(cells@[k], cells@[mid as int]));
                    }
                }
            }
            lo = mid + 1;
        } else {
            proof {
                assert forall|k: int| mid <= k < cells@.len() implies row < (#[trigger] cells@[k]).row || (cells@[k].row == row && column < cells@[k].column) by {
                    if k > mid {
                        assert(cell_before(cells@[mid as int], cells@[k]));
                    }
                }
            }
            hi = mid;
        }
    }
    None
}

/// The formula evaluator's view of a workbook: the snapshot and the sheet
/// each normalised sheet id or name resolves to.
pub struct Calculator<'a> {
    model: &'a SpreadsheetModel,
    sheets: SheetLookup,
}

impl<'a> Calculator<'a> {
    pub closed spec fn model(&self) -> SpreadsheetModel {
        *self.model
    }

    /// Normalised sheet ids and names to sheet ids.
    pub closed spec fn sheet_names(&self) -> Map<Seq<char>, Seq<char>> {
        self.sheets.view()
    }

    pub closed spec fn wf(&self) -> bool {
        self.sheets.keys_unique()
    }

    /// An evaluator over `model`; fails when two sheets claim one normalised
    /// id or name, naming that key and the sheet that claims it second.
    pub fn new(model: &'a SpreadsheetModel) -> (res: Result<Self, FormulaCalculationError>)
        ensures
            match spec_lookup(model.sheets@) {
                Ok(m) => res matches Ok(c) && c.wf() && c.model() == *model && c.sheet_names() == m,
                Err(k) => res matches Err(e) && e matches FormulaCalculationError::UnknownSheet { cell, sheet }
                    && sheet@ == k && cell.sheet_id@ == model.sheets@[clash_sheet(model.sheets@, 2 * model.sheets@.len())].id@
                    && cell.row == 0 && cell.column == 0,
            },
    {
        match sheet_table(model) {
            Ok(sheets) => Ok(Calculator { model, sheets }),
            Err((key, i)) => Err(FormulaCalculationError::UnknownSheet {
                cell: CellAddress { sheet_id: model.sheets[i].id.clone(), row: 0, column: 0 },
                sheet: key,
            }),
        }
    }

    /// The cell the snapshot holds at `address`.
    pub fn cell_at(&self, address: &CellAddress) -> (res: Option<&'a CellModel>)
        ensures
            match res {
                Some(c) => exists|i: int, j: int| holds_at(self.model(), av(*address), i, j) && *c == self.model().sheets@[i].cells@[j],
                None => !holds_cell(self.model(), av(*address)),
            },
    {
        let model: &'a SpreadsheetModel = self.model;
        let ghost a = av(*address);
        let mut i: usize = 0;
        while i < model.sheets.len() && !same_text(model.sheets[i].id.as_str(), address.sheet_id.as_str())
            invariant
                a == av(*address),
                i <= model.sheets@.len(),
                forall|k: int| 0 <= k < i ==> (#[trigger] model.sheets@[k]).id@ != a.0,
            decreases model.sheets@.len() - i,
        {
            i += 1;
        }
        if i == model.sheets.len() {
            proof {
                assert forall|i2: int, j2: int| !holds_at(*model, a, i2, j2) by {
                    if holds_at(*model, a, i2, j2) {
                        assert(model.sheets@[i2].id@ == a.0);
                    }
                }
            }
            return None;
        }
        let sheet: &'a SheetModel = &model.sheets[i];
        proof {
            assert(first_sheet_with(*model, a.0, i as int));
            assert forall|i2: int, j2: int| holds_at(*model, a, i2, j2) implies i2 == i by {
                if i2 < i {
                    assert(model.sheets@[i2].id@ != a.0);
                }
                if i2 > i {
                    assert(model.sheets@[i as int].id@ == a.0);
                }
            }
        }
        if sorted_cells(&sheet.cells) {
            match search_sorted(&sheet.cells, address.row, address.column) {
                Some(j) => {
                    proof {
                        assert forall|k: int| 0 <= k < j implies !((#[trigger] sheet.cells@[k]).row == a.1 && sheet.cells@[k].column == a.2) by {
                            assert(cell_before(sheet.cells@[k], sheet.cells@[j as int]));
                        }
                        assert(holds_at(self.model(), av(*address), i as int, j as int));
                        assert(sheet.cells@[j as int] == self.model().sheets@[i as int].cells@[j as int]);
                    }
                    Some(&sheet.cells[j])
                },
                None => {
                    proof {
                        assert forall|i2: int, j2: int| !holds_at(*model, a, i2, j2) by {
                            if holds_at(*model, a, i2, j2) {
                                assert(i2 == i);
                                assert(sheet.cells@[j2].row == a.1);
                            }
                        }
                    }
                    None
                },
            }
        } else {
            let mut j: usize = 0;
            while j < sheet.cells.len()
                invariant
                    i < model.sheets@.len(),
                    *model == self.model(),
                    *sheet == model.sheets@[i as int],
                    a == av(*address),
                    first_sheet_with(*model, a.0, i as int),
                    j <= sheet.cells@.len(),
                    forall|k: int| 0 <= k < j ==> !((#[trigger] sheet.cells@[k]).row == a.1 && sheet.cells@[k].column == a.2),
                decreases sheet.cells@.len() - j,
            {
                if sheet.cells[j].row == address.row && sheet.cells[j].column == address.column {
                    proof {
                        assert(holds_at(self.model(), av(*address), i as int, j as int));
                        assert(sheet.cells@[j as int] == self.model().sheets@[i as int].cells@[j as int]);
                    }
                    return Some(&sheet.cells[j]);
                }
                j += 1;
            }
            proof {
                assert forall|i2: int, j2: int| !holds_at(*model, a, i2, j2) by {
                    if holds_at(*model, a, i2, j2) {
                        assert(i2 == i);
                        assert(sheet.cells@[j2].row == a.1);
                    }
                }
            }
            None
        }
    }
}

/// Where a reference points from the formula at `current`: a named sheet
/// resolves through `names`; an unknown sheet name comes back as written.
pub open spec fn coordinate(names: Map<Seq<char>, Seq<char>>, current: Addr, r: RefView) -> Result<Addr, Seq<char>> {
    match r.0 {
        Some(s) => if names.contains_key(normalize(s)) {
            Ok((names[normalize(s)], r.1, r.2))
        } else {
            Err(s)
        },
        None => Ok((current.0, r.1, r.2)),
    }
}

impl<'a> Calculator<'a> {
    /// The address `reference` denotes in the formula at `current`.
    pub fn resolve_coordinate(&self, current: &CellAddress, reference: &Reference) -> (res: Result<CellAddress, FormulaCalculationError>)
        requires
            self.wf(),
        ensures
            match coordinate(self.sheet_names(), av(*current), ref_view(*reference)) {
                Ok(a) => res matches Ok(addr) && av(addr) == a,
                Err(s) => res matches Err(e) && e matches FormulaCalculationError::UnknownSheet { cell, sheet } && av(cell)
                    == av(*current) && sheet@ == s,
            },
    {
        let sheet_id = match &reference.sheet {
            Some(sheet) => {
                let key = normalize_chars(&chars_of(sheet.as_str()));
                match self.sheets.get(&key) {
                    Some(id) => id,
                    None => {
                        return Err(FormulaCalculationError::UnknownSheet { cell: copy_addr(current), sheet: sheet.clone() });
                    },
                }
            },
            None => current.sheet_id.clone(),
        };
        Ok(CellAddress { sheet_id, row: reference.row, column: reference.column })
    }

    /// The materialised cell `reference` denotes in the formula at
    /// `current`; an address the snapshot holds no cell at is an unknown
    /// reference.
    pub fn resolve_reference(&self, current: &CellAddress, reference: &Reference) -> (res: Result<CellAddress, FormulaCalculationError>)
        requires
            self.wf(),
        ensures
            match coordinate(self.sheet_names(), av(*current), ref_view(*reference)) {
                Ok(a) => if holds_cell(self.model(), a) {
                    res matches Ok(addr) && av(addr) == a
                } else {
                    res matches Err(e) && e matches FormulaCalculationError::UnknownReference { cell, reference: r }
                        && av(cell) == av(*current) && av(r) == a
                },
                Err(s) => res matches Err(e) && e matches FormulaCalculationError::UnknownSheet { cell, sheet } && av(cell)
                    == av(*current) && sheet@ == s,
            },
    {
        let address = match self.resolve_coordinate(current, reference) {
            Ok(a) => a,
            Err(e) => return Err(e),
        };
        if self.cell_at(&address).is_none() {
            return Err(FormulaCalculationError::UnknownReference { cell: copy_addr(current), reference: address });
        }
        Ok(address)
    }
}

/// The operation named when a function lacks its first argument.
pub const MISSING_ARGUMENT: &'static str = "缺少参数";

/// The operation named when a function lacks its second argument.
pub const MISSING_SECOND_ARGUMENT: &'static str = "缺少第二个参数";

/// The error of a missing argument: a type mismatch at the empty address.
pub open spec fn missing_argument(e: FormulaCalculationError, operation: Seq<char>) -> bool {
    e matches FormulaCalculationError::TypeMismatch { cell, operation: o } && cell.sheet_id@ == Seq::<char>::empty()
        && cell.row == 0 && cell.column == 0 && o@ == operation
}

/// A function call's first argument.
pub fn first_arg(args: &[Expr]) -> (res: Result<&Expr, FormulaCalculationError>)
    ensures
        args@.len() > 0 ==> (res matches Ok(e) && *e == args@[0]),
        args@.len() == 0 ==> (res matches Err(e) && missing_argument(e, MISSING_ARGUMENT@)),
{
    if args.len() > 0 {
        Ok(&args[0])
    } else {
        Err(FormulaCalculationError::TypeMismatch {
            cell: CellAddress { sheet_id: String::new(), row: 0, column: 0 },
            operation: String::from_str(MISSING_ARGUMENT),
        })
    }
}

/// A function call's second argument.
pub fn second_arg(args: &[Expr]) -> (res: Result<&Expr, FormulaCalculationError>)
    ensures
        args@.len() > 1 ==> (res matches Ok(e) && *e == args@[1]),
        args@.len() <= 1 ==> (res matches Err(e) && missing_argument(e, MISSING_SECOND_ARGUMENT@)),
{
    if args.len() > 1 {
        Ok(&args[1])
    } else {
        Err(FormulaCalculationError::TypeMismatch {
            cell: CellAddress { sheet_id: String::new(), row: 0, column: 0 },
            operation: String::from_str(MISSING_SECOND_ARGUMENT),
        })
    }
}

} // verus!
