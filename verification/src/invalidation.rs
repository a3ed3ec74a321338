//! The invalidation summary of a workbook change: which sheets, cells and
//! ranges a renderer must treat as stale. A cell write also makes stale every
//! formula cell that reads it, directly or through other formulas, as the
//! formula dependency index of the workbook after the change records them.

use vstd::prelude::*;
use crate::address::{CellAddress, Addr, av};
use crate::addr_set::{views, set_view};
use crate::grid::GridRange;
use crate::dependency::{
    SpreadsheetModel, FormulaDependencyIndex, formula_map, spec_lookup, snapshot_indexable, is_reverse_closure,
};
use crate::mutation::{SpreadsheetMutation, MutationView, target_sheet};
use crate::engine::batch_views;
use crate::scene::{EntityRef, Invalidation, strictly_sorted, insert_sorted};
use crate::text::{decimal, decimal_chars, push_chars, chars_of, string_of};

verus! {

/// The entity type of a cell.
pub const CELL_ENTITY: &'static str = "spreadsheet.cell";

/// The entity type of a range.
pub const RANGE_ENTITY: &'static str = "spreadsheet.range";

/// The entity type of a sheet.
pub const SHEET_ENTITY: &'static str = "spreadsheet.sheet";

/// A cell's entity id: `sheetId:row:column`.
pub open spec fn cell_text(a: Addr) -> Seq<char> {
    a.0 + seq![':'] + decimal(a.1 as nat) + seq![':'] + decimal(a.2 as nat)
}

/// A range's entity id: `sheetId:startRow:startColumn:endRow:endColumn`.
pub open spec fn range_text(sheet_id: Seq<char>, r: GridRange) -> Seq<char> {
    sheet_id + seq![':'] + decimal(r.start_row as nat) + seq![':'] + decimal(r.start_column as nat) + seq![':']
        + decimal(r.end_row as nat) + seq![':'] + decimal(r.end_column as nat)
}

/// The ids of a set of cells.
pub open spec fn cell_texts(s: Set<Addr>) -> Set<Seq<char>> {
    Set::new(|t: Seq<char>| exists|a: Addr| s.contains(a) && t == cell_text(a))
}

/// The cells the changes write, one by one.
pub open spec fn written_cells(ms: Seq<MutationView>) -> Set<Addr>
    decreases ms.len(),
{
    if ms.len() == 0 {
        Set::empty()
    } else {
        let r = written_cells(ms.drop_last());
        match ms.last() {
            MutationView::CellChanged { sheet_id, row, column, .. } => r.insert((sheet_id, row, column)),
            _ => r,
        }
    }
}

/// The ids of the ranges the changes rewrite whole.
pub open spec fn written_ranges(ms: Seq<MutationView>) -> Set<Seq<char>>
    decreases ms.len(),
{
    if ms.len() == 0 {
        Set::empty()
    } else {
        let r = written_ranges(ms.drop_last());
        match ms.last() {
            MutationView::RangeChanged { sheet_id, range, .. } => r.insert(range_text(sheet_id, range)),
            _ => r,
        }
    }
}

/// The sheets the changes touch.
pub open spec fn touched_sheets(ms: Seq<MutationView>) -> Set<Seq<char>>
    decreases ms.len(),
{
    if ms.len() == 0 {
        Set::empty()
    } else {
        touched_sheets(ms.drop_last()).insert(target_sheet(ms.last()))
    }
}

/// Whether a change replaces a sheet or a range whole, after which the
/// dependency index is rebuilt rather than consulted.
pub open spec fn structural(ms: Seq<MutationView>) -> bool
    decreases ms.len(),
{
    if ms.len() == 0 {
        false
    } else {
        structural(ms.drop_last()) || ms.last() is SheetChanged || ms.last() is RangeChanged
    }
}

/// Whether a change creates or deletes a sheet.
pub open spec fn adds_or_drops_sheet(ms: Seq<MutationView>) -> bool
    decreases ms.len(),
{
    if ms.len() == 0 {
        false
    } else {
        adds_or_drops_sheet(ms.drop_last()) || (ms.last() matches MutationView::SheetChanged { before, after, .. }
            && (before is None || after is None))
    }
}

/// The stale cells: the written cells with every formula cell that reads
/// them in the workbook after the change, when no sheet or range was
/// replaced whole and the workbook's formulas can be indexed; otherwise
/// the written cells alone.
pub open spec fn stale_cells(ms: Seq<MutationView>, model: SpreadsheetModel, cells: Set<Addr>) -> bool {
    if !structural(ms) && snapshot_indexable(model) {
        spec_lookup(model.sheets@) matches Ok(lk) && is_reverse_closure(formula_map(model, lk), written_cells(ms), cells)
    } else {
        cells == written_cells(ms)
    }
}

pub open spec fn entity_ids(es: Seq<EntityRef>) -> Seq<Seq<char>> {
    es.map_values(|e: EntityRef| e.entity_id@)
}

/// The stale cells' entities fill the first `n` places and the rewritten
/// ranges' entities the rest, each part in id order.
pub open spec fn entity_split(es: Seq<EntityRef>, ms: Seq<MutationView>, model: SpreadsheetModel, n: int, cells: Set<Addr>) -> bool {
    &&& 0 <= n <= es.len()
    &&& stale_cells(ms, model, cells)
    &&& forall|k: int| 0 <= k < n ==> (#[trigger] es[k]).entity_type@ == CELL_ENTITY@
    &&& forall|k: int| n <= k < es.len() ==> (#[trigger] es[k]).entity_type@ == RANGE_ENTITY@
    &&& strictly_sorted(entity_ids(es.take(n)))
    &&& entity_ids(es.take(n)).to_set() == cell_texts(cells)
    &&& strictly_sorted(entity_ids(es.skip(n)))
    &&& entity_ids(es.skip(n)).to_set() == written_ranges(ms)
}

proof fn lemma_entity_split(es: Seq<EntityRef>, ms: Seq<MutationView>, model: SpreadsheetModel, n: int, cells: Set<Addr>)
    requires
        0 <= n <= es.len(),
        stale_cells(ms, model, cells),
        forall|k: int| 0 <= k < n ==> (#[trigger] es[k]).entity_type@ == CELL_ENTITY@,
        forall|k: int| n <= k < es.len() ==> (#[trigger] es[k]).entity_type@ == RANGE_ENTITY@,
        strictly_sorted(entity_ids(es.take(n))),
        entity_ids(es.take(n)).to_set() == cell_texts(cells),
        strictly_sorted(entity_ids(es.skip(n))),
        entity_ids(es.skip(n)).to_set() == written_ranges(ms),
    ensures
        entity_split(es, ms, model, n, cells),
{
}

/// The summary a batch of changes calls for on the workbook it left: the
/// stale cells, then the rewritten ranges, each kind once and in id order
/// (the order of the pair of entity type and id); each touched sheet once,
/// in id order; and whether the structure changed: a sheet was created or
/// deleted, or (`regions`) the batch merged or unmerged cells.
pub open spec fn spreadsheet_invalidates(inv: Invalidation, ms: Seq<MutationView>, model: SpreadsheetModel, regions: bool) -> bool {
    let es = inv.changed_entities@;
    let cs = inv.changed_containers@;
    &&& exists|n: int, cells: Set<Addr>| #[trigger] entity_split(es, ms, model, n, cells)
    &&& forall|k: int| 0 <= k < cs.len() ==> (#[trigger] cs[k]).entity_type@ == SHEET_ENTITY@
    &&& strictly_sorted(entity_ids(cs))
    &&& entity_ids(cs).to_set() == touched_sheets(ms)
    &&& inv.structure_changed == (adds_or_drops_sheet(ms) || regions)
}

/// The id of a cell.
pub fn cell_chars(a: &CellAddress) -> (res: Vec<char>)
    ensures
        res@ == cell_text(av(*a)),
{
    let mut out = chars_of(a.sheet_id.as_str());
    out.push(':');
    push_chars(&mut out, &decimal_chars(a.row as u64));
    out.push(':');
    push_chars(&mut out, &decimal_chars(a.column as u64));
    out
}

/// The id of a range of a sheet.
pub fn range_chars(sheet_id: &String, r: &GridRange) -> (res: Vec<char>)
    ensures
        res@ == range_text(sheet_id@, *r),
{
    let mut out = chars_of(sheet_id.as_str());
    out.push(':');
    push_chars(&mut out, &decimal_chars(r.start_row as u64));
    out.push(':');
    push_chars(&mut out, &decimal_chars(r.start_column as u64));
    out.push(':');
    push_chars(&mut out, &decimal_chars(r.end_row as u64));
    out.push(':');
    push_chars(&mut out, &decimal_chars(r.end_column as u64));
    out
}

pub open spec fn texts(l: Seq<Vec<char>>) -> Seq<Seq<char>> {
    l.map_values(|v: Vec<char>| v@)
}

proof fn lemma_push_to_set<A>(s: Seq<A>, x: A)
    ensures
        s.push(x).to_set() == s.to_set().insert(x),
{
    assert forall|y: A| s.push(x).to_set().contains(y) <==> s.to_set().insert(x).contains(y) by {
        if s.push(x).contains(y) {
            let i = choose|i: int| 0 <= i < s.push(x).len() && s.push(x)[i] == y;
            if i < s.len() {
                assert(s[i] == y);
            }
        }
        if s.contains(y) {
            let i = choose|i: int| 0 <= i < s.len() && s[i] == y;
            assert(s.push(x)[i] == y);
        }
        if y == x {
            assert(s.push(x)[s.len() as int] == y);
        }
    }
    assert(s.push(x).to_set() =~= s.to_set().insert(x));
}

proof fn lemma_cell_texts_insert(s: Set<Addr>, a: Addr)
    ensures
        cell_texts(s.insert(a)) == cell_texts(s).insert(cell_text(a)),
{
    assert forall|t: Seq<char>| cell_texts(s.insert(a)).contains(t) <==> cell_texts(s).insert(cell_text(a)).contains(t) by {
        if cell_texts(s.insert(a)).contains(t) {
            let b = choose|b: Addr| s.insert(a).contains(b) && t == cell_text(b);
            if b != a {
                assert(s.contains(b));
            }
        }
        if cell_texts(s).contains(t) {
            let b = choose|b: Addr| s.contains(b) && t == cell_text(b);
            assert(s.insert(a).contains(b));
        }
        if t == cell_text(a) {
            assert(s.insert(a).contains(a));
        }
    }
    assert(cell_texts(s.insert(a)) =~= cell_texts(s).insert(cell_text(a)));
}

proof fn lemma_cell_texts_union(w: Set<Addr>, n: Set<Addr>)
    requires
        w.subset_of(n),
    ensures
        cell_texts(w).union(cell_texts(n)) == cell_texts(n),
{
    assert forall|t: Seq<char>| cell_texts(w).contains(t) implies cell_texts(n).contains(t) by {
        let b = choose|b: Addr| w.contains(b) && t == cell_text(b);
        assert(n.contains(b));
    }
    assert(cell_texts(w).union(cell_texts(n)) =~= cell_texts(n));
}

/// The entities for sorted ids of one type.
fn entities_of(ids: &Vec<Vec<char>>, entity_type: &str, out: &mut Vec<EntityRef>)
    ensures
        final(out)@.len() == old(out)@.len() + ids@.len(),
        final(out)@.take(old(out)@.len() as int) == old(out)@,
        entity_ids(final(out)@.skip(old(out)@.len() as int)) == texts(ids@),
        forall|k: int| old(out)@.len() <= k < final(out)@.len() ==> (#[trigger] final(out)@[k]).entity_type@ == entity_type@,
{
    let ghost start = out@;
    let mut j: usize = 0;
    while j < ids.len()
        invariant
            j <= ids@.len(),
            out@.len() == start.len() + j,
            out@.take(start.len() as int) == start,
            entity_ids(out@.skip(start.len() as int)) == texts(ids@).take(j as int),
            forall|k: int| start.len() <= k < out@.len() ==> (#[trigger] out@[k]).entity_type@ == entity_type@,
        decreases ids@.len() - j,
    {
        let ghost before = out@;
        out.push(EntityRef { entity_type: entity_type.to_string(), entity_id: string_of(&ids[j]) });
        proof {
            assert(out@.take(start.len() as int) =~= before.take(start.len() as int));
            assert(out@.skip(start.len() as int) =~= before.skip(start.len() as int).push(out@.last()));
            assert(entity_ids(out@.skip(start.len() as int)) =~= entity_ids(before.skip(start.len() as int)).push(
                ids@[j as int]@,
            ));
            assert(texts(ids@).take(j + 1) =~= texts(ids@).take(j as int).push(ids@[j as int]@));
        }
        j += 1;
    }
    proof {
        assert(texts(ids@).take(ids@.len() as int) =~= texts(ids@));
    }
}

/// The invalidation summary of a batch of changes on the workbook they left.
pub fn batch_invalidation(ms: &Vec<SpreadsheetMutation>, model: &SpreadsheetModel, regions: bool) -> (res: Invalidation)
    ensures
        spreadsheet_invalidates(res, batch_views(ms@), *model, regions),
{
    let ghost mv = batch_views(ms@);
    let mut cells: Vec<Vec<char>> = Vec::new();
    let mut ranges: Vec<Vec<char>> = Vec::new();
    let mut sheets: Vec<Vec<char>> = Vec::new();
    let mut written: Vec<CellAddress> = Vec::new();
    let mut whole = false;
    let mut sheet_count = false;
    let mut k: usize = 0;
    proof {
        assert(texts(cells@).to_set() =~= Set::<Seq<char>>::empty());
        assert(cell_texts(Set::<Addr>::empty()) =~= Set::<Seq<char>>::empty());
        assert(set_view(written@) =~= Set::<Addr>::empty());
        assert(mv.take(0) =~= Seq::<MutationView>::empty());
    }
    while k < ms.len()
        invariant
            mv == batch_views(ms@),
            k <= ms@.len(),
            strictly_sorted(texts(cells@)),
            texts(cells@).to_set() == cell_texts(written_cells(mv.take(k as int))),
            strictly_sorted(texts(ranges@)),
            texts(ranges@).to_set() == written_ranges(mv.take(k as int)),
            strictly_sorted(texts(sheets@)),
            texts(sheets@).to_set() == touched_sheets(mv.take(k as int)),
            set_view(written@) == written_cells(mv.take(k as int)),
            whole == structural(mv.take(k as int)),
            sheet_count == adds_or_drops_sheet(mv.take(k as int)),
        decreases ms@.len() - k,
    {
        proof {
            assert(mv.take(k + 1).drop_last() =~= mv.take(k as int));
            assert(mv.take(k + 1).last() == ms@[k as int]@);
        }
        match &ms[k] {
            SpreadsheetMutation::SheetChanged { sheet_id, before, after, .. } => {
                insert_sorted(&mut sheets, chars_of(sheet_id.as_str()));
                whole = true;
                if before.is_none() || after.is_none() {
                    sheet_count = true;
                }
            },
            SpreadsheetMutation::CellChanged { address, .. } => {
                insert_sorted(&mut sheets, chars_of(address.sheet_id.as_str()));
                insert_sorted(&mut cells, cell_chars(address));
                let ghost before = written@;
                written.push(CellAddress { sheet_id: address.sheet_id.clone(), row: address.row, column: address.column });
                proof {
                    lemma_cell_texts_insert(written_cells(mv.take(k as int)), av(*address));
                    assert(views(written@) =~= views(before).push(av(*address)));
                    lemma_push_to_set(views(before), av(*address));
                }
            },
            SpreadsheetMutation::RangeChanged { sheet_id, range, .. } => {
                insert_sorted(&mut sheets, chars_of(sheet_id.as_str()));
                insert_sorted(&mut ranges, range_chars(sheet_id, range));
                whole = true;
            },
            SpreadsheetMutation::PaneChanged { sheet_id, .. } => {
                insert_sorted(&mut sheets, chars_of(sheet_id.as_str()));
            },
            SpreadsheetMutation::RowDimensionsChanged { sheet_id, .. } => {
                insert_sorted(&mut sheets, chars_of(sheet_id.as_str()));
            },
            SpreadsheetMutation::ColumnDimensionsChanged { sheet_id, .. } => {
                insert_sorted(&mut sheets, chars_of(sheet_id.as_str()));
            },
        }
        k += 1;
    }
    proof {
        assert(mv.take(ms@.len() as int) =~= mv);
    }
    let ghost w = written_cells(mv);
    let ghost mut stale: Set<Addr> = w;
    if !whole {
        match FormulaDependencyIndex::from_model(model) {
            Ok(index) => {
                let nodes = index.reverse_closure(written.as_slice());
                let mut j: usize = 0;
                proof {
                    assert(views(nodes@).take(0).to_set() =~= Set::<Addr>::empty());
                    assert(cell_texts(w).union(cell_texts(Set::<Addr>::empty())) =~= cell_texts(w));
                }
                while j < nodes.len()
                    invariant
                        j <= nodes@.len(),
                        strictly_sorted(texts(cells@)),
                        texts(cells@).to_set() == cell_texts(w).union(cell_texts(views(nodes@).take(j as int).to_set())),
                    decreases nodes@.len() - j,
                {
                    insert_sorted(&mut cells, cell_chars(&nodes[j]));
                    proof {
                        let prev = views(nodes@).take(j as int);
                        assert(views(nodes@).take(j + 1) =~= prev.push(av(nodes@[j as int])));
                        lemma_push_to_set(prev, av(nodes@[j as int]));
                        lemma_cell_texts_insert(prev.to_set(), av(nodes@[j as int]));
                        assert(cell_texts(w).union(cell_texts(views(nodes@).take(j + 1).to_set())) =~= cell_texts(w).union(
                            cell_texts(prev.to_set()),
                        ).insert(cell_text(av(nodes@[j as int]))));
                    }
                    j += 1;
                }
                proof {
                    assert(views(nodes@).take(nodes@.len() as int) =~= views(nodes@));
                    stale = set_view(nodes@);
                    lemma_cell_texts_union(w, stale);
                }
            },
            Err(_) => {},
        }
    }
    let mut entities: Vec<EntityRef> = Vec::new();
    entities_of(&cells, CELL_ENTITY, &mut entities);
    let ghost n = entities@.len() as int;
    let ghost cell_part = entities@;
    entities_of(&ranges, RANGE_ENTITY, &mut entities);
    let mut containers: Vec<EntityRef> = Vec::new();
    entities_of(&sheets, SHEET_ENTITY, &mut containers);
    proof {
        assert(entities@.take(n) == cell_part);
        assert(cell_part =~= cell_part.skip(0));
        assert(containers@ =~= containers@.skip(0));
        assert forall|k: int| 0 <= k < n implies (#[trigger] entities@[k]).entity_type@ == CELL_ENTITY@ by {
            assert(entities@.take(n)[k] == entities@[k]);
            assert(cell_part[k].entity_type@ == CELL_ENTITY@);
        }
        lemma_cell_texts_union(Set::<Addr>::empty(), stale);
        lemma_entity_split(entities@, mv, *model, n, stale);
        assert(entity_ids(containers@) == texts(sheets@));
        assert(forall|k: int| 0 <= k < containers@.len() ==> (#[trigger] containers@[k]).entity_type@ == SHEET_ENTITY@);
        assert(sheet_count == adds_or_drops_sheet(mv));
        assert(entity_ids(containers@).to_set() == touched_sheets(mv));
        assert(exists|n2: int, c2: Set<Addr>| #[trigger] entity_split(entities@, mv, *model, n2, c2));
    }
    let res = Invalidation { changed_entities: entities, changed_containers: containers, structure_changed: sheet_count || regions };
    proof {
        assert(res.changed_entities@ == entities@);
        assert(exists|n2: int, c2: Set<Addr>| #[trigger] entity_split(res.changed_entities@, mv, *model, n2, c2));
        assert(strictly_sorted(entity_ids(res.changed_containers@)));
        assert(forall|k: int| 0 <= k < res.changed_containers@.len() ==> (#[trigger] res.changed_containers@[k]).entity_type@ == SHEET_ENTITY@);
        assert(entity_ids(res.changed_containers@).to_set() == touched_sheets(mv));
        assert(res.structure_changed == (adds_or_drops_sheet(mv) || regions));
    }
    res
}

} // verus!
