//! The spreadsheet engine's history: batches of reversible mutations are
//! committed atomically under a revision clock, and undone and redone by
//! replaying their inverses.

use vstd::prelude::*;
use crate::cells::{CellValue, value_view, opt_value_view, text_view, attrs_view};
use crate::dependency::{SpreadsheetModel, CellModel};
use crate::mutation::{copy_model, SpreadsheetMutation, MutationView, SheetView, model_view, sorted_cells, pos_before, replays, undo_views, spec_apply, inverse_view, apply_checked, law_inverse_restores, law_undo_restores, model_wf, lemma_replays_append, law_inverse_involution, lemma_apply_keeps_wf, put_cell, sorted_of, lemma_sorted_of, sheet_view};
use crate::dependency::{SheetModel, validate_snapshot, sheet_ids_distinct, cells_distinct, DUPLICATE_SHEET_ID, DUPLICATE_CELL_POSITION};
use crate::refs::FormulaDependencyError;
use crate::sheet_edits::copy_cell;
use crate::viewport::CellView;
use crate::sheet_edits::SpreadsheetEngineError;
use crate::text::same_text;
use crate::viewport::{cell_view, cells_view};
use crate::invalidation::{batch_invalidation, spreadsheet_invalidates};
use crate::scene::Invalidation;
use crate::commands::{SpreadsheetCommand, CommandView, Outcome, Refusal, spec_command, reports, command_mutation, lemma_command_records};
use crate::mutation::{apply_all, applies_in_turn, lemma_applies_prefix};

verus! {

/// Whether two stored values are the same.
fn same_value(a: &CellValue, b: &CellValue) -> (res: bool)
    ensures
        res == (value_view(*a) == value_view(*b)),
{
    match (a, b) {
        (CellValue::Null, CellValue::Null) => true,
        (CellValue::Bool(x), CellValue::Bool(y)) => *x == *y,
        (CellValue::Number(x), CellValue::Number(y)) => same_text(x.as_str(), y.as_str()),
        (CellValue::Text(x), CellValue::Text(y)) => same_text(x.as_str(), y.as_str()),
        _ => false,
    }
}

fn same_opt_value(a: &Option<CellValue>, b: &Option<CellValue>) -> (res: bool)
    ensures
        res == (opt_value_view(*a) == opt_value_view(*b)),
{
    match (a, b) {
        (Some(x), Some(y)) => same_value(x, y),
        (None, None) => true,
        _ => false,
    }
}

fn same_opt_text(a: &Option<String>, b: &Option<String>) -> (res: bool)
    ensures
        res == (text_view(*a) == text_view(*b)),
{
    match (a, b) {
        (Some(x), Some(y)) => same_text(x.as_str(), y.as_str()),
        (None, None) => true,
        _ => false,
    }
}

fn same_attrs(a: &Vec<(String, String)>, b: &Vec<(String, String)>) -> (res: bool)
    ensures
        res == (attrs_view(a@) == attrs_view(b@)),
{
    if a.len() != b.len() {
        proof {
            assert(attrs_view(a@).len() != attrs_view(b@).len());
        }
        return false;
    }
    let mut k: usize = 0;
    while k < a.len()
        invariant
            a@.len() == b@.len(),
            k <= a@.len(),
            forall|j: int| 0 <= j < k ==> attrs_view(a@)[j] == attrs_view(b@)[j],
        decreases a@.len() - k,
    {
        if !same_text(a[k].0.as_str(), b[k].0.as_str()) || !same_text(a[k].1.as_str(), b[k].1.as_str()) {
            proof {
                assert(attrs_view(a@)[k as int] != attrs_view(b@)[k as int]);
            }
            return false;
        }
        k += 1;
    }
    proof {
        assert(attrs_view(a@) =~= attrs_view(b@));
    }
    true
}

/// Whether two cells hold the same position and contents.
pub(crate) fn same_cell(a: &CellModel, b: &CellModel) -> (res: bool)
    ensures
        res == (cell_view(*a) == cell_view(*b)),
{
    a.row == b.row && a.column == b.column && same_opt_text(&a.formula, &b.formula) && same_opt_value(
        &a.value,
        &b.value,
    ) && same_opt_text(&a.style, &b.style) && same_attrs(&a.attrs, &b.attrs)
}

/// The position of the cell at (`row`, `column`), if any.
pub(crate) fn find_cell_in(cells: &Vec<CellModel>, row: u32, column: u32) -> (res: Option<usize>)
    ensures
        match res {
            Some(j) => j < cells@.len() && cells@[j as int].row == row && cells@[j as int].column == column,
            None => forall|j: int| 0 <= j < cells@.len() ==> !((#[trigger] cells@[j]).row == row && cells@[j].column == column),
        },
{
    let mut j: usize = 0;
    while j < cells.len()
        invariant
            j <= cells@.len(),
            forall|q: int| 0 <= q < j ==> !((#[trigger] cells@[q]).row == row && cells@[q].column == column),
        decreases cells@.len() - j,
    {
        if cells[j].row == row && cells[j].column == column {
            return Some(j);
        }
        j += 1;
    }
    None
}

pub open spec fn batch_views(ms: Seq<SpreadsheetMutation>) -> Seq<MutationView> {
    ms.map_values(|m: SpreadsheetMutation| m@)
}

/// Replays the mutations in turn; each is known to apply.
fn replay(model: &mut SpreadsheetModel, ms: &Vec<SpreadsheetMutation>, Ghost(target): Ghost<Seq<SheetView>>)
    requires
        model_wf(model_view(*old(model))),
        replays(model_view(*old(model)), batch_views(ms@), target),
    ensures
        model_view(*final(model)) == target,
        model_wf(target),
{
    let mut k: usize = 0;
    proof {
        assert(batch_views(ms@).skip(0) =~= batch_views(ms@));
    }
    while k < ms.len()
        invariant
            k <= ms@.len(),
            model_wf(model_view(*model)),
            replays(model_view(*model), batch_views(ms@).skip(k as int), target),
        decreases ms@.len() - k,
    {
        let ghost cur = model_view(*model);
        let ghost rest = batch_views(ms@).skip(k as int);
        proof {
            assert(rest[0] == ms@[k as int]@);
            law_inverse_restores(cur, rest[0]);
            lemma_apply_keeps_wf(cur, rest[0]);
            assert(rest.drop_first() =~= batch_views(ms@).skip(k + 1));
        }
        let r = apply_checked(model, &ms[k]);
        proof {
            assert(r is Ok);
        }
        k += 1;
    }
    proof {
        assert(batch_views(ms@).skip(ms@.len() as int) =~= Seq::<MutationView>::empty());
    }
}

/// The mutations that undo the first `n` of `ms`: their inverses, last first.
fn undo_list(ms: &Vec<SpreadsheetMutation>, n: usize) -> (res: Vec<SpreadsheetMutation>)
    requires
        n <= ms@.len(),
    ensures
        batch_views(res@) == undo_views(batch_views(ms@).take(n as int)),
{
    let ghost u = undo_views(batch_views(ms@).take(n as int));
    let mut out: Vec<SpreadsheetMutation> = Vec::new();
    let mut t: usize = n;
    proof {
        assert(batch_views(out@) =~= u.take(0));
    }
    while t > 0
        invariant
            t <= n,
            n <= ms@.len(),
            u == undo_views(batch_views(ms@).take(n as int)),
            batch_views(out@) == u.take(n - t),
        decreases t,
    {
        t -= 1;
        let ghost before = out@;
        out.push(ms[t].inverse());
        proof {
            assert(u[n - 1 - t] == inverse_view(ms@[t as int]@));
            assert(batch_views(out@) =~= batch_views(before).push(inverse_view(ms@[t as int]@)));
            assert(u.take(n - t) =~= u.take(n - 1 - t).push(u[n - 1 - t]));
        }
    }
    proof {
        assert(u.take(n as int) =~= u);
    }
    out
}

/// A copy of the mutations, in order.
fn copy_batch(ms: &Vec<SpreadsheetMutation>) -> (res: Vec<SpreadsheetMutation>)
    ensures
        batch_views(res@) == batch_views(ms@),
{
    let mut out: Vec<SpreadsheetMutation> = Vec::new();
    let mut k: usize = 0;
    while k < ms.len()
        invariant
            k <= ms@.len(),
            batch_views(out@) == batch_views(ms@).take(k as int),
        decreases ms@.len() - k,
    {
        let ghost before = out@;
        let c = ms[k].inverse().inverse();
        proof {
            law_inverse_involution(ms@[k as int]@);
        }
        out.push(c);
        proof {
            assert(batch_views(out@) =~= batch_views(before).push(ms@[k as int]@));
            assert(batch_views(ms@).take(k + 1) =~= batch_views(ms@).take(k as int).push(ms@[k as int]@));
        }
        k += 1;
    }
    proof {
        assert(batch_views(ms@).take(ms@.len() as int) =~= batch_views(ms@));
    }
    out
}

/// The workbook with each sheet's cells in row-then-column order.
pub open spec fn ordered_model(v: Seq<SheetView>) -> Seq<SheetView> {
    v.map_values(|s: SheetView| (s.0, s.1, sorted_of(s.2.to_set()), s.3, s.4))
}

/// The cells, one per position, put in row-then-column order.
fn order_cells(cells: &Vec<CellModel>) -> (res: Vec<CellModel>)
    requires
        forall|j1: int, j2: int|
            0 <= j1 < cells@.len() && 0 <= j2 < cells@.len() && j1 != j2 ==> !((#[trigger] cells@[j1]).row
                == (#[trigger] cells@[j2]).row && cells@[j1].column == cells@[j2].column),
    ensures
        sorted_cells(cells_view(res@)),
        cells_view(res@).to_set() == cells_view(cells@).to_set(),
{
    let ghost w = cells_view(cells@);
    let mut out: Vec<CellModel> = Vec::new();
    let mut k: usize = 0;
    proof {
        assert(cells_view(out@).to_set() =~= w.take(0).to_set());
    }
    while k < cells.len()
        invariant
            w == cells_view(cells@),
            k <= cells@.len(),
            forall|j1: int, j2: int|
                0 <= j1 < cells@.len() && 0 <= j2 < cells@.len() && j1 != j2 ==> !((#[trigger] cells@[j1]).row
                    == (#[trigger] cells@[j2]).row && cells@[j1].column == cells@[j2].column),
            sorted_cells(cells_view(out@)),
            cells_view(out@).to_set() == w.take(k as int).to_set(),
        decreases cells@.len() - k,
    {
        let c = copy_cell(&cells[k]);
        let ghost before = cells_view(out@).to_set();
        let ghost cv = w[k as int];
        proof {
            assert(cell_view(cells@[k as int]) == cv);
        }
        out = put_cell(out, c.row, c.column, Some(c));
        proof {
            let pre = w.take(k as int);
            let post = w.take(k + 1);
            assert forall|y: CellView| cells_view(out@).to_set().contains(y) <==> post.to_set().contains(y) by {
                if before.contains(y) && y.0 == cv.0 && y.1 == cv.1 {
                    let m = choose|m: int| 0 <= m < pre.len() && pre[m] == y;
                    assert(w[m] == cell_view(cells@[m]));
                    assert(cells@[m].row == cells@[k as int].row && cells@[m].column == cells@[k as int].column);
                }
                if post.to_set().contains(y) {
                    let m = choose|m: int| 0 <= m < post.len() && post[m] == y;
                    if m < k {
                        assert(pre[m] == y);
                        assert(w[m] == cell_view(cells@[m]));
                        if y.0 == cv.0 && y.1 == cv.1 {
                            assert(cells@[m].row == cells@[k as int].row && cells@[m].column == cells@[k as int].column);
                        }
                    }
                }
                if pre.to_set().contains(y) {
                    let m = choose|m: int| 0 <= m < pre.len() && pre[m] == y;
                    assert(post[m] == y);
                }
                if y == cv {
                    assert(post[k as int] == y);
                }
            }
            assert(cells_view(out@).to_set() =~= post.to_set());
        }
        k += 1;
    }
    proof {
        assert(w.take(w.len() as int) =~= w);
    }
    out
}

/// The workbook with each sheet's cells in row-then-column order.
fn order_model(model: &SpreadsheetModel) -> (res: SpreadsheetModel)
    requires
        sheet_ids_distinct(*model),
        cells_distinct(*model),
    ensures
        model_view(res) == ordered_model(model_view(*model)),
        model_wf(model_view(res)),
{
    let ghost v = model_view(*model);
    let mut sheets: Vec<SheetModel> = Vec::new();
    let mut i: usize = 0;
    while i < model.sheets.len()
        invariant
            v == model_view(*model),
            i <= model.sheets@.len(),
            sheet_ids_distinct(*model),
            cells_distinct(*model),
            sheets@.len() == i,
            forall|k: int| 0 <= k < i ==> #[trigger] sheet_view(sheets@[k]) == ordered_model(v)[k],
            forall|k: int| 0 <= k < i ==> sorted_cells(#[trigger] sheet_view(sheets@[k]).2),
        decreases model.sheets@.len() - i,
    {
        let s = &model.sheets[i];
        proof {
            assert forall|j1: int, j2: int|
                0 <= j1 < s.cells@.len() && 0 <= j2 < s.cells@.len() && j1 != j2 implies !((#[trigger] s.cells@[j1]).row
                    == (#[trigger] s.cells@[j2]).row && s.cells@[j1].column == s.cells@[j2].column) by {
                assert(model.sheets@[i as int].cells@[j1] == s.cells@[j1]);
                assert(model.sheets@[i as int].cells@[j2] == s.cells@[j2]);
            }
        }
        let cells = order_cells(&s.cells);
        proof {
            lemma_sorted_of(cells_view(cells@));
            assert(v[i as int] == sheet_view(*s));
        }
        sheets.push(SheetModel { id: s.id.clone(), name: s.name.clone(), cells, metadata: s.metadata, merged_ranges: crate::dependency::copy_ranges(&s.merged_ranges) });
        i += 1;
    }
    let res = SpreadsheetModel { sheets };
    proof {
        assert(model_view(res) =~= ordered_model(v));
        assert forall|a: int, b: int| 0 <= a < b < model_view(res).len() implies (#[trigger] model_view(res)[a]).0
            != (#[trigger] model_view(res)[b]).0 by {
            assert(model_view(res)[a].0 == model.sheets@[a].id@);
            assert(model_view(res)[b].0 == model.sheets@[b].id@);
        }
        assert forall|a: int| 0 <= a < model_view(res).len() implies sorted_cells(#[trigger] model_view(res)[a].2) by {
            assert(model_view(res)[a] == sheet_view(res.sheets@[a]));
        }
    }
    res
}

/// A committed batch: the new revision, what a renderer must treat as
/// stale, and the mutations that made it.
#[derive(Debug, Clone, PartialEq, Eq)]
pub struct SpreadsheetChangeSet {
    pub revision: u64,
    pub invalidation: Invalidation,
    pub mutations: Vec<SpreadsheetMutation>,
}

/// A workbook under a revision clock, with the batches that can be undone
/// and redone.
pub struct SpreadsheetEngine {
    model: SpreadsheetModel,
    revision: u64,
    undo: Vec<Vec<SpreadsheetMutation>>,
    redo: Vec<Vec<SpreadsheetMutation>>,
    /// The workbook before each batch that can be undone.
    undo_bases: Ghost<Seq<Seq<SheetView>>>,
    /// The workbook after each batch that can be redone.
    redo_tops: Ghost<Seq<Seq<SheetView>>>,
}

impl SpreadsheetEngine {
    pub closed spec fn spec_model(&self) -> Seq<SheetView> {
        model_view(self.model)
    }

    pub closed spec fn spec_revision(&self) -> u64 {
        self.revision
    }

    /// The batches that can be undone, oldest first.
    pub closed spec fn undo_stack(&self) -> Seq<Seq<MutationView>> {
        self.undo@.map_values(|b: Vec<SpreadsheetMutation>| batch_views(b@))
    }

    /// The batches that can be redone, the next one last.
    pub closed spec fn redo_stack(&self) -> Seq<Seq<MutationView>> {
        self.redo@.map_values(|b: Vec<SpreadsheetMutation>| batch_views(b@))
    }

    /// The workbook before each batch that can be undone.
    pub closed spec fn undo_bases(&self) -> Seq<Seq<SheetView>> {
        self.undo_bases@
    }

    /// The workbook after each batch that can be redone.
    pub closed spec fn redo_tops(&self) -> Seq<Seq<SheetView>> {
        self.redo_tops@
    }

    /// The workbook itself, of which `spec_model` is the view.
    pub closed spec fn spec_workbook(&self) -> SpreadsheetModel {
        self.model
    }

    pub proof fn lemma_workbook_view(&self)
        ensures
            model_view(self.spec_workbook()) == self.spec_model(),
    {
    }

    pub closed spec fn undo_depth(&self) -> nat {
        self.undo@.len()
    }

    pub closed spec fn redo_depth(&self) -> nat {
        self.redo@.len()
    }

    /// The workbook before the batch that undo would revert.
    pub closed spec fn undo_base(&self) -> Seq<SheetView> {
        self.undo_bases@.last()
    }

    /// The workbook after the batch that redo would replay.
    pub closed spec fn redo_top(&self) -> Seq<SheetView> {
        self.redo_tops@.last()
    }

    /// The history replays: each undoable batch leads from the workbook
    /// before it to the next, the last to the present workbook, and each
    /// redoable batch leads from the present workbook onward.
    pub closed spec fn wf(&self) -> bool {
        &&& model_wf(model_view(self.model))
        &&& self.undo_bases@.len() == self.undo@.len()
        &&& self.redo_tops@.len() == self.redo@.len()
        &&& forall|k: int| 0 <= k < self.undo@.len() ==> replays(
            #[trigger] self.undo_bases@[k],
            batch_views(self.undo@[k]@),
            if k + 1 < self.undo@.len() { self.undo_bases@[k + 1] } else { model_view(self.model) },
        )
        &&& forall|k: int| 0 <= k < self.redo@.len() ==> replays(
            if k + 1 < self.redo@.len() { self.redo_tops@[k + 1] } else { model_view(self.model) },
            batch_views(self.redo@[k]@),
            #[trigger] self.redo_tops@[k],
        )
    }

    /// An engine over a workbook that passes the schema check (distinct
    /// sheet ids, one cell per position), with each sheet's cells put in
    /// row-then-column order, and no history.
    pub fn new(model: SpreadsheetModel, revision: u64) -> (res: Result<Self, SpreadsheetEngineError>)
        ensures
            res is Ok <==> sheet_ids_distinct(model) && cells_distinct(model),
            res matches Ok(e) ==> e.wf() && e.spec_model() == ordered_model(model_view(model)) && e.spec_revision()
                == revision && e.undo_depth() == 0 && e.redo_depth() == 0,
            res matches Err(err) ==> err matches SpreadsheetEngineError::Schema(m) && (m@ == DUPLICATE_SHEET_ID@
                || m@ == DUPLICATE_CELL_POSITION@),
    {
        match validate_snapshot(&model) {
            Ok(()) => {},
            Err(FormulaDependencyError::Schema(m)) => {
                return Err(SpreadsheetEngineError::Schema(m));
            },
            Err(_) => {
                return Err(SpreadsheetEngineError::Schema(String::from_str(DUPLICATE_SHEET_ID)));
            },
        }
        let model = order_model(&model);
        Ok(SpreadsheetEngine {
            model,
            revision,
            undo: Vec::new(),
            redo: Vec::new(),
            undo_bases: Ghost(Seq::empty()),
            redo_tops: Ghost(Seq::empty()),
        })
    }

    pub fn model(&self) -> (res: &SpreadsheetModel)
        ensures
            model_view(*res) == self.spec_model(),
            *res == self.spec_workbook(),
    {
        &self.model
    }

    pub fn revision(&self) -> (res: u64)
        ensures
            res == self.spec_revision(),
    {
        self.revision
    }

    pub fn can_undo(&self) -> (res: bool)
        ensures
            res == (self.undo_depth() > 0),
    {
        self.undo.len() > 0
    }

    pub fn can_redo(&self) -> (res: bool)
        ensures
            res == (self.redo_depth() > 0),
    {
        self.redo.len() > 0
    }
}

impl SpreadsheetEngine {
    /// Undoes the last committed batch by replaying its inverses, last
    /// first; the workbook becomes the one from before the batch.
    #[verifier::rlimit(50)]
    pub fn undo(&mut self) -> (res: Result<SpreadsheetChangeSet, SpreadsheetEngineError>)
        requires
            old(self).wf(),
        ensures
            final(self).wf(),
            res matches Ok(c) ==> spreadsheet_invalidates(c.invalidation, batch_views(c.mutations@), final(self).spec_workbook(), false),
            res is Ok <==> (old(self).spec_revision() < u64::MAX && old(self).undo_depth() > 0),
            res matches Ok(c) ==> final(self).spec_model() == old(self).undo_base() && c.revision == old(self).spec_revision()
                + 1 && final(self).spec_revision() == c.revision && replays(
                old(self).spec_model(),
                batch_views(c.mutations@),
                final(self).spec_model(),
            ) && final(self).undo_depth() + 1 == old(self).undo_depth() && final(self).redo_depth()
                == old(self).redo_depth() + 1 && final(self).redo_top() == old(self).spec_model(),
            res matches Ok(_c) ==> final(self).undo_stack() == old(self).undo_stack().drop_last() && final(self).redo_stack()
                == old(self).redo_stack().push(old(self).undo_stack().last()) && final(self).undo_bases() == old(
                self,
            ).undo_bases().drop_last() && final(self).redo_tops() == old(self).redo_tops().push(old(self).spec_model()),
            res is Err ==> *final(self) == *old(self),
            res matches Err(e) ==> (if old(self).spec_revision() == u64::MAX {
                e is RevisionOverflow
            } else {
                e is NothingToUndo
            }),
    {
        if self.revision == u64::MAX {
            return Err(SpreadsheetEngineError::RevisionOverflow);
        }
        if self.undo.len() == 0 {
            return Err(SpreadsheetEngineError::NothingToUndo);
        }
        let ghost cur = model_view(self.model);
        let ghost n = self.undo@.len() as int;
        let ghost base = self.undo_bases@[n - 1];
        let batch = match self.undo.pop() {
            Some(b) => b,
            None => {
                return Err(SpreadsheetEngineError::NothingToUndo);
            },
        };
        self.undo_bases = Ghost(self.undo_bases@.drop_last());
        let ghost bv = batch_views(batch@);
        proof {
            assert(batch == old(self).undo@[n - 1]);
            assert(replays(base, bv, cur));
            law_undo_restores(base, bv, cur);
            assert(bv.take(bv.len() as int) =~= bv);
        }
        let back = undo_list(&batch, batch.len());
        replay(&mut self.model, &back, Ghost(base));
        self.redo.push(batch);
        self.redo_tops = Ghost(self.redo_tops@.push(cur));
        self.revision = self.revision + 1;
        proof {
            assert forall|k: int| 0 <= k < self.undo@.len() implies replays(
                #[trigger] self.undo_bases@[k],
                batch_views(self.undo@[k]@),
                if k + 1 < self.undo@.len() { self.undo_bases@[k + 1] } else { model_view(self.model) },
            ) by {
                assert(self.undo@[k] == old(self).undo@[k]);
                assert(self.undo_bases@[k] == old(self).undo_bases@[k]);
                if k + 1 < self.undo@.len() {
                    assert(self.undo_bases@[k + 1] == old(self).undo_bases@[k + 1]);
                }
            }
            let r = self.redo@.len() as int;
            assert forall|k: int| 0 <= k < self.redo@.len() implies replays(
                if k + 1 < self.redo@.len() { self.redo_tops@[k + 1] } else { model_view(self.model) },
                batch_views(self.redo@[k]@),
                #[trigger] self.redo_tops@[k],
            ) by {
                if k < r - 1 {
                    assert(self.redo@[k] == old(self).redo@[k]);
                    assert(self.redo_tops@[k] == old(self).redo_tops@[k]);
                    if k + 1 < r - 1 {
                        assert(self.redo_tops@[k + 1] == old(self).redo_tops@[k + 1]);
                    }
                }
            }
        }
        let invalidation = batch_invalidation(&back, &self.model, false);
        Ok(SpreadsheetChangeSet { revision: self.revision, invalidation, mutations: back })
    }

    /// Redoes the last undone batch; the workbook becomes the one the batch
    /// made.
    #[verifier::rlimit(50)]
    pub fn redo(&mut self) -> (res: Result<SpreadsheetChangeSet, SpreadsheetEngineError>)
        requires
            old(self).wf(),
        ensures
            final(self).wf(),
            res matches Ok(c) ==> spreadsheet_invalidates(c.invalidation, batch_views(c.mutations@), final(self).spec_workbook(), false),
            res is Ok <==> (old(self).spec_revision() < u64::MAX && old(self).redo_depth() > 0),
            res matches Ok(c) ==> final(self).spec_model() == old(self).redo_top() && c.revision == old(self).spec_revision()
                + 1 && final(self).spec_revision() == c.revision && replays(
                old(self).spec_model(),
                batch_views(c.mutations@),
                final(self).spec_model(),
            ) && final(self).redo_depth() + 1 == old(self).redo_depth() && final(self).undo_depth()
                == old(self).undo_depth() + 1 && final(self).undo_base() == old(self).spec_model(),
            res matches Ok(_c) ==> final(self).redo_stack() == old(self).redo_stack().drop_last() && final(self).undo_stack()
                == old(self).undo_stack().push(old(self).redo_stack().last()) && final(self).redo_tops() == old(
                self,
            ).redo_tops().drop_last() && final(self).undo_bases() == old(self).undo_bases().push(old(self).spec_model()),
            res is Err ==> *final(self) == *old(self),
            res matches Err(e) ==> (if old(self).spec_revision() == u64::MAX {
                e is RevisionOverflow
            } else {
                e is NothingToRedo
            }),
    {
        if self.revision == u64::MAX {
            return Err(SpreadsheetEngineError::RevisionOverflow);
        }
        if self.redo.len() == 0 {
            return Err(SpreadsheetEngineError::NothingToRedo);
        }
        let ghost cur = model_view(self.model);
        let ghost n = self.redo@.len() as int;
        let ghost top = self.redo_tops@[n - 1];
        let batch = match self.redo.pop() {
            Some(b) => b,
            None => {
                return Err(SpreadsheetEngineError::NothingToRedo);
            },
        };
        self.redo_tops = Ghost(self.redo_tops@.drop_last());
        proof {
            assert(batch == old(self).redo@[n - 1]);
            assert(replays(cur, batch_views(batch@), top));
        }
        replay(&mut self.model, &batch, Ghost(top));
        let out = copy_batch(&batch);
        self.undo.push(batch);
        self.undo_bases = Ghost(self.undo_bases@.push(cur));
        self.revision = self.revision + 1;
        proof {
            let u = self.undo@.len() as int;
            assert forall|k: int| 0 <= k < self.undo@.len() implies replays(
                #[trigger] self.undo_bases@[k],
                batch_views(self.undo@[k]@),
                if k + 1 < self.undo@.len() { self.undo_bases@[k + 1] } else { model_view(self.model) },
            ) by {
                if k < u - 1 {
                    assert(self.undo@[k] == old(self).undo@[k]);
                    assert(self.undo_bases@[k] == old(self).undo_bases@[k]);
                    if k + 1 < u - 1 {
                        assert(self.undo_bases@[k + 1] == old(self).undo_bases@[k + 1]);
                    }
                }
            }
            assert forall|k: int| 0 <= k < self.redo@.len() implies replays(
                if k + 1 < self.redo@.len() { self.redo_tops@[k + 1] } else { model_view(self.model) },
                batch_views(self.redo@[k]@),
                #[trigger] self.redo_tops@[k],
            ) by {
                assert(self.redo@[k] == old(self).redo@[k]);
                assert(self.redo_tops@[k] == old(self).redo_tops@[k]);
                if k + 1 < self.redo@.len() {
                    assert(self.redo_tops@[k + 1] == old(self).redo_tops@[k + 1]);
                }
            }
        }
        let invalidation = batch_invalidation(&out, &self.model, false);
        Ok(SpreadsheetChangeSet { revision: self.revision, invalidation, mutations: out })
    }
}

/// What a batch of commands does, command by command, to a workbook.
pub enum RunView {
    Failed(Refusal),
    Done(Seq<MutationView>, Seq<SheetView>),
}

/// The first `k` commands run in turn from `v`: the mutations they made
/// and the workbook they reached, or the first refusal.
pub open spec fn run_commands(v: Seq<SheetView>, cs: Seq<CommandView>, k: nat) -> RunView
    decreases k,
{
    if k == 0 {
        RunView::Done(Seq::empty(), v)
    } else {
        match run_commands(v, cs, (k - 1) as nat) {
            RunView::Failed(r) => RunView::Failed(r),
            RunView::Done(ms, w) => match spec_command(w, cs[k - 1]) {
                Outcome::Refused(r) => RunView::Failed(r),
                Outcome::Unchanged => RunView::Done(ms, w),
                Outcome::Changed(m) => RunView::Done(ms.push(m), spec_apply(w, m)),
                Outcome::Edited(list) => RunView::Done(ms + list, apply_all(w, list)),
            },
        }
    }
}

pub open spec fn command_views(cs: Seq<SpreadsheetCommand>) -> Seq<CommandView> {
    cs.map_values(|c: SpreadsheetCommand| c@)
}

proof fn lemma_run_failed(v: Seq<SheetView>, cs: Seq<CommandView>, k: nat, n: nat, r: Refusal)
    requires
        k <= n,
        run_commands(v, cs, k) == RunView::Failed(r),
    ensures
        run_commands(v, cs, n) == RunView::Failed(r),
    decreases n - k,
{
    if k < n {
        lemma_run_failed(v, cs, k + 1, n, r);
    }
}

/// A batch of commands made against a revision.
#[derive(Debug, Clone, PartialEq, Eq)]
pub struct SpreadsheetCommandBatch {
    pub base_revision: u64,
    pub commands: Vec<SpreadsheetCommand>,
}

/// A command that changes a sheet's layout: merges or unmerges cells, or
/// inserts or deletes rows or columns.
pub open spec fn edits_layout(c: CommandView) -> bool {
    c is MergeCells || c is UnmergeCells || c is InsertRows || c is DeleteRows || c is InsertColumns || c is DeleteColumns
}

/// Whether a command of the batch changes a sheet's layout.
pub open spec fn edits_regions(cs: Seq<CommandView>) -> bool {
    exists|k: int| 0 <= k < cs.len() && edits_layout(#[trigger] cs[k])
}

fn has_region_command(cs: &Vec<SpreadsheetCommand>) -> (res: bool)
    ensures
        res == edits_regions(command_views(cs@)),
{
    let ghost v = command_views(cs@);
    let mut k: usize = 0;
    while k < cs.len()
        invariant
            k <= cs@.len(),
            v == command_views(cs@),
            forall|j: int| 0 <= j < k ==> !edits_layout(#[trigger] v[j]),
        decreases cs@.len() - k,
    {
        proof {
            assert(v[k as int] == cs@[k as int]@);
        }
        match &cs[k] {
            SpreadsheetCommand::MergeCells { .. } => {
                return true;
            },
            SpreadsheetCommand::UnmergeCells { .. } => {
                return true;
            },
            SpreadsheetCommand::InsertRows { .. } => {
                return true;
            },
            SpreadsheetCommand::DeleteRows { .. } => {
                return true;
            },
            SpreadsheetCommand::InsertColumns { .. } => {
                return true;
            },
            SpreadsheetCommand::DeleteColumns { .. } => {
                return true;
            },
            _ => {},
        }
        k += 1;
    }
    false
}

impl SpreadsheetEngine {
    /// Runs a batch of commands: every persistent change enters here and
    /// leaves as reversible mutations. A refused command undoes what the
    /// batch did before it; a batch that changes nothing is refused too.
    #[verifier::rlimit(80)]
    pub fn execute(&mut self, batch: SpreadsheetCommandBatch) -> (res: Result<SpreadsheetChangeSet, SpreadsheetEngineError>)
        requires
            old(self).wf(),
        ensures
            final(self).wf(),
            res matches Ok(c) ==> spreadsheet_invalidates(
                c.invalidation,
                batch_views(c.mutations@),
                final(self).spec_workbook(),
                edits_regions(command_views(batch.commands@)),
            ),
            res is Ok <==> (batch.commands@.len() > 0 && batch.base_revision == old(self).spec_revision()
                && old(self).spec_revision() < u64::MAX && (run_commands(
                old(self).spec_model(),
                command_views(batch.commands@),
                batch.commands@.len(),
            ) matches RunView::Done(ms, _) && ms.len() > 0)),
            res matches Ok(c) ==> c.revision == old(self).spec_revision() + 1 && final(self).spec_revision() == c.revision
                && run_commands(old(self).spec_model(), command_views(batch.commands@), batch.commands@.len())
                == RunView::Done(batch_views(c.mutations@), final(self).spec_model()) && replays(
                old(self).spec_model(),
                batch_views(c.mutations@),
                final(self).spec_model(),
            ) && final(self).undo_depth() == old(self).undo_depth() + 1 && final(self).undo_base()
                == old(self).spec_model() && final(self).redo_depth() == 0,
            res matches Ok(c) ==> final(self).undo_stack() == old(self).undo_stack().push(batch_views(c.mutations@))
                && final(self).redo_stack() == Seq::<Seq<MutationView>>::empty() && final(self).undo_bases()
                == old(self).undo_bases().push(old(self).spec_model()) && final(self).redo_tops() == Seq::<
                Seq<SheetView>,
            >::empty(),
            res is Err ==> *final(self) == *old(self),
            res matches Err(e) ==> (if batch.commands@.len() == 0 {
                e is EmptyCommandBatch
            } else if batch.base_revision != old(self).spec_revision() {
                e == SpreadsheetEngineError::RevisionConflict { expected: old(self).spec_revision(), actual: batch.base_revision }
            } else if old(self).spec_revision() == u64::MAX {
                e is RevisionOverflow
            } else {
                match run_commands(old(self).spec_model(), command_views(batch.commands@), batch.commands@.len()) {
                    RunView::Failed(r) => reports(e, r),
                    RunView::Done(..) => e is NoChanges,
                }
            }),
    {
        let commands = batch.commands;
        let regions = has_region_command(&commands);
        if commands.len() == 0 {
            return Err(SpreadsheetEngineError::EmptyCommandBatch);
        }
        if batch.base_revision != self.revision {
            return Err(SpreadsheetEngineError::RevisionConflict { expected: self.revision, actual: batch.base_revision });
        }
        if self.revision == u64::MAX {
            return Err(SpreadsheetEngineError::RevisionOverflow);
        }
        let ghost v0 = model_view(self.model);
        let ghost cs = command_views(commands@);
        let mut work = copy_model(&self.model);
        let mut mutations: Vec<SpreadsheetMutation> = Vec::new();
        let mut j: usize = 0;
        proof {
            assert(batch_views(mutations@) =~= Seq::<MutationView>::empty());
        }
        while j < commands.len()
            invariant
                old(self).wf(),
                commands@ == batch.commands@,
                commands@.len() > 0,
                batch.base_revision == old(self).revision,
                old(self).revision < u64::MAX,
                v0 == model_view(old(self).model),
                cs == command_views(commands@),
                j <= commands@.len(),
                model_wf(model_view(work)),
                run_commands(v0, cs, j as nat) == RunView::Done(batch_views(mutations@), model_view(work)),
                replays(v0, batch_views(mutations@), model_view(work)),
                *self == *old(self),
            decreases commands@.len() - j,
        {
            let ghost cur = model_view(work);
            let ghost ms = batch_views(mutations@);
            proof {
                assert(cs[j as int] == commands@[j as int]@);
                lemma_command_records(cur, cs[j as int]);
            }
            match command_mutation(&work, &commands[j]) {
                Err(e) => {
                    proof {
                        assert(run_commands(v0, cs, (j + 1) as nat) == RunView::Failed(spec_command(cur, cs[j as int])->Refused_0));
                        lemma_run_failed(v0, cs, (j + 1) as nat, commands@.len() as nat, spec_command(cur, cs[j as int])->Refused_0);
                    }
                    return Err(e);
                },
                Ok(list) => {
                    let ghost target = batch_views(list@);
                    proof {
                        match spec_command(cur, cs[j as int]) {
                            Outcome::Changed(m) => {
                                assert(target == seq![m]);
                                assert(target.drop_last() =~= Seq::<MutationView>::empty());
                                assert(applies_in_turn(cur, target.drop_last()));
                                assert(apply_all(cur, target.drop_last()) == cur);
                            },
                            Outcome::Unchanged => {
                                assert(target =~= Seq::<MutationView>::empty());
                            },
                            _ => {},
                        }
                        assert(target.take(0) =~= Seq::<MutationView>::empty());
                        assert(ms + target.take(0) =~= ms);
                    }
                    let n0 = list.len();
                    let mut rest = list;
                    let mut t: usize = 0;
                    while rest.len() > 0
                        invariant
                            target.len() == n0,
                            old(self).wf(),
                            v0 == model_view(old(self).model),
                            applies_in_turn(cur, target),
                            t <= target.len(),
                            batch_views(rest@) == target.skip(t as int),
                            model_wf(model_view(work)),
                            model_view(work) == apply_all(cur, target.take(t as int)),
                            batch_views(mutations@) == ms + target.take(t as int),
                            replays(v0, batch_views(mutations@), model_view(work)),
                            *self == *old(self),
                        decreases rest@.len(),
                    {
                        let ghost r0 = rest@;
                        proof {
                            assert(batch_views(r0).len() == r0.len());
                            assert(t < target.len());
                        }
                        let m = rest.remove(0);
                        let ghost state = model_view(work);
                        let ghost done = batch_views(mutations@);
                        proof {
                            assert(rest@ =~= r0.subrange(1, r0.len() as int));
                            assert(m == r0[0]);
                            assert(batch_views(r0)[0] == m@);
                            assert(target.skip(t as int)[0] == target[t as int]);
                            assert(m@ == target[t as int]);
                            assert forall|k: int| 0 <= k < rest@.len() implies #[trigger] batch_views(rest@)[k] == target.skip(t + 1)[k] by {
                                assert(batch_views(rest@)[k] == rest@[k]@);
                                assert(rest@[k] == r0[k + 1]);
                                assert(batch_views(r0)[k + 1] == r0[k + 1]@);
                                assert(target.skip(t as int)[k + 1] == target[t + k + 1]);
                            }
                            assert(batch_views(rest@) =~= target.skip(t + 1));
                            lemma_applies_prefix(cur, target, t + 1);
                            assert(target.take(t + 1).drop_last() =~= target.take(t as int));
                            assert(target.take(t + 1).last() == target[t as int]);
                            law_inverse_restores(state, m@);
                            lemma_apply_keeps_wf(state, m@);
                            let single = seq![m@];
                            assert(single.drop_first() =~= Seq::<MutationView>::empty());
                            assert(replays(spec_apply(state, m@), single.drop_first(), spec_apply(state, m@)));
                            assert(replays(state, single, spec_apply(state, m@)));
                            lemma_replays_append(v0, done, state, m@, spec_apply(state, m@));
                        }
                        let r = apply_checked(&mut work, &m);
                        proof {
                            assert(r is Ok);
                        }
                        mutations.push(m);
                        proof {
                            assert(batch_views(mutations@) =~= done.push(m@));
                            assert(ms + target.take(t + 1) =~= (ms + target.take(t as int)).push(target[t as int]));
                        }
                        t += 1;
                    }
                    proof {
                        assert(t == target.len()) by {
                            assert(target.skip(t as int).len() == 0);
                        }
                        assert(target.take(t as int) =~= target);
                        match spec_command(cur, cs[j as int]) {
                            Outcome::Changed(m) => {
                                assert(ms + target =~= ms.push(m));
                                assert(target.drop_last() =~= Seq::<MutationView>::empty());
                                assert(apply_all(cur, target) == spec_apply(cur, m));
                            },
                            _ => {},
                        }
                    }
                },
            }
            j += 1;
        }
        if mutations.len() == 0 {
            proof {
                assert(batch_views(mutations@).len() == 0);
            }
            return Err(SpreadsheetEngineError::NoChanges);
        }
        self.model = work;
        let stored = copy_batch(&mutations);
        self.undo.push(stored);
        self.undo_bases = Ghost(self.undo_bases@.push(v0));
        self.redo = Vec::new();
        self.redo_tops = Ghost(Seq::empty());
        self.revision = self.revision + 1;
        proof {
            let n = self.undo@.len() as int;
            assert forall|k: int| 0 <= k < self.undo@.len() implies replays(
                #[trigger] self.undo_bases@[k],
                batch_views(self.undo@[k]@),
                if k + 1 < self.undo@.len() { self.undo_bases@[k + 1] } else { model_view(self.model) },
            ) by {
                if k < n - 1 {
                    assert(self.undo@[k] == old(self).undo@[k]);
                    assert(self.undo_bases@[k] == old(self).undo_bases@[k]);
                    if k + 1 < n - 1 {
                        assert(self.undo_bases@[k + 1] == old(self).undo_bases@[k + 1]);
                    }
                }
            }
        }
        let invalidation = batch_invalidation(&mutations, &self.model, regions);
        Ok(SpreadsheetChangeSet { revision: self.revision, invalidation, mutations })
    }
}

} // verus!
