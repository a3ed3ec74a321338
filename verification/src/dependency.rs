//! The formula dependency index: for every formula cell the cells it reads,
//! and for every read cell the formula cells that read it. The index is
//! derived from a workbook snapshot and never written back into it.

use vstd::prelude::*;
use crate::address::{CellAddress, Addr, av, addr_lt, copy_addr};
use crate::addr_set::{views, strictly_sorted, set_view, lists, lemma_set_view_facts, lemma_views_push, lemma_push_to_set, lemma_set_view_push, sorted_insert, sorted_contains, merge_sorted, filter_sorted};
use crate::addr_map::{Entry, keys, map_wf, mv, lemma_mv, map_find, map_insert, map_remove, map_add_member, map_remove_member};
use crate::refs::{FormulaDependencyError, scan, parse_references};
use crate::sheet_name::{SheetLookup, normalize, normalize_chars};
use crate::text::string_of;
use crate::grid::GridRange;
use crate::topology::describes_affected;
use crate::scc::{cycle_components, cycle_listing, graph_cells, forward_closed, is_forward_closure, scc_of, lemma_forward_closure_reaches, lemma_reverse_closure_reaches, reads_itself, reaches};
use crate::cyclic::{on_cycle, scc_closed, inner_edges, lemma_outside_order_covers, lemma_reaches_refl, lemma_reaches_trans, lemma_on_cycle_formula, lemma_leaf_reaches};
use crate::topology::topological_order;
use crate::cells::CellValue;
use crate::sheet_edits::{offset_key, lemma_offset_key};
use crate::text::same_text;
use std::collections::HashSet;

verus! {

/// A materialised cell: its position, stored value, formula, opaque
/// attributes (keys with the JSON text of their values) and style (the JSON
/// text of its style object).
#[derive(Debug, Clone, PartialEq, Eq, Default)]
pub struct CellModel {
    pub row: u32,
    pub column: u32,
    pub value: Option<CellValue>,
    pub formula: Option<String>,
    pub attrs: Vec<(String, String)>,
    pub style: Option<String>,
}

/// The rows and columns a worksheet keeps frozen at its top and left.
#[derive(Debug, Clone, Copy, PartialEq, Eq, Default)]
pub struct FreezePane {
    pub rows: u32,
    pub columns: u32,
}

/// The frozen pane of a worksheet and the size it declares, if any.
#[derive(Debug, Clone, Copy, PartialEq, Eq, Default)]
pub struct SheetMetadata {
    pub freeze: FreezePane,
    pub row_count: Option<u32>,
    pub column_count: Option<u32>,
}

/// A worksheet: its stable id, its display name, its materialised cells,
/// its frozen pane and declared size, and its merged regions.
#[derive(Debug, Clone, PartialEq, Eq, Default)]
pub struct SheetModel {
    pub id: String,
    pub name: String,
    pub cells: Vec<CellModel>,
    pub metadata: SheetMetadata,
    pub merged_ranges: Vec<GridRange>,
}

/// A copy of a list of ranges.
pub fn copy_ranges(ranges: &Vec<GridRange>) -> (res: Vec<GridRange>)
    ensures
        res@ == ranges@,
{
    let mut out: Vec<GridRange> = Vec::new();
    let mut k: usize = 0;
    while k < ranges.len()
        invariant
            k <= ranges@.len(),
            out@ == ranges@.take(k as int),
        decreases ranges@.len() - k,
    {
        out.push(ranges[k]);
        proof {
            assert(out@ =~= ranges@.take(k + 1));
        }
        k += 1;
    }
    proof {
        assert(ranges@.take(ranges@.len() as int) =~= ranges@);
    }
    out
}

/// A workbook snapshot.
#[derive(Debug, Clone, PartialEq, Eq, Default)]
pub struct SpreadsheetModel {
    pub sheets: Vec<SheetModel>,
}

/// The `t`-th name that resolves to a sheet: even `t` is the id of sheet
/// `t / 2`, odd `t` its name; each maps, normalised, to the sheet's id.
pub open spec fn lookup_pair(sheets: Seq<SheetModel>, t: int) -> (Seq<char>, Seq<char>) {
    let sheet = sheets[t / 2];
    (normalize(if t % 2 == 0 { sheet.id@ } else { sheet.name@ }), sheet.id@)
}

/// The table after recording the first `t` names, or the first key that
/// two different sheets claim.
pub open spec fn lookup_fold(sheets: Seq<SheetModel>, t: nat) -> Result<Map<Seq<char>, Seq<char>>, Seq<char>>
    decreases t,
{
    if t == 0 {
        Ok(Map::empty())
    } else {
        match lookup_fold(sheets, (t - 1) as nat) {
            Err(k) => Err(k),
            Ok(m) => {
                let (k, id) = lookup_pair(sheets, t - 1);
                if m.contains_key(k) && m[k] != id {
                    Err(k)
                } else {
                    Ok(m.insert(k, id))
                }
            },
        }
    }
}

/// Once two sheets claim a key, the table stays in error with that key.
pub proof fn lemma_lookup_fold_err(sheets: Seq<SheetModel>, t: nat, u: nat)
    requires
        t <= u,
        lookup_fold(sheets, t) is Err,
    ensures
        lookup_fold(sheets, u) == lookup_fold(sheets, t),
    decreases u,
{
    if u > t {
        lemma_lookup_fold_err(sheets, t, (u - 1) as nat);
    }
}

pub open spec fn spec_lookup(sheets: Seq<SheetModel>) -> Result<Map<Seq<char>, Seq<char>>, Seq<char>> {
    lookup_fold(sheets, 2 * sheets.len())
}

/// The sheet whose id or name is the first key that two different sheets
/// claim among the first `t` names.
pub open spec fn clash_sheet(sheets: Seq<SheetModel>, t: nat) -> int
    decreases t,
{
    if t == 0 {
        0
    } else if lookup_fold(sheets, (t - 1) as nat) is Err {
        clash_sheet(sheets, (t - 1) as nat)
    } else {
        (t - 1) / 2
    }
}

proof fn lemma_clash_sheet(sheets: Seq<SheetModel>, t: nat, u: nat)
    requires
        0 < t <= u,
        lookup_fold(sheets, (t - 1) as nat) is Ok,
        lookup_fold(sheets, t) is Err,
    ensures
        clash_sheet(sheets, u) == (t - 1) / 2,
    decreases u,
{
    if u > t {
        lemma_lookup_fold_err(sheets, t, (u - 1) as nat);
        lemma_clash_sheet(sheets, t, (u - 1) as nat);
    }
}

/// Resolves every sheet id and name, normalised, to its sheet's id; or the
/// first key that two different sheets claim, with the index of the sheet
/// that claims it second.
pub fn sheet_table(model: &SpreadsheetModel) -> (res: Result<SheetLookup, (String, usize)>)
    ensures
        match spec_lookup(model.sheets@) {
            Ok(m) => res matches Ok(l) && l.keys_unique() && l.view() == m,
            Err(k) => res matches Err((s, i)) && s@ == k && i == clash_sheet(model.sheets@, 2 * model.sheets@.len())
                && i < model.sheets@.len(),
        },
{
    let mut lookup = SheetLookup::new();
    let mut i: usize = 0;
    while i < model.sheets.len()
        invariant
            i <= model.sheets@.len(),
            lookup.keys_unique(),
            lookup_fold(model.sheets@, 2 * i as nat) == Ok::<Map<Seq<char>, Seq<char>>, Seq<char>>(
                lookup.view(),
            ),
        decreases model.sheets@.len() - i,
    {
        let sheet = &model.sheets[i];
        let id_chars = crate::text::chars_of(sheet.id.as_str());
        let name_chars = crate::text::chars_of(sheet.name.as_str());
        proof {
            assert((2 * i) / 2 == i && (2 * i) % 2 == 0);
            assert((2 * i + 1) / 2 == i && (2 * i + 1) % 2 == 1);
        }
        if !lookup.record(normalize_chars(&id_chars), &sheet.id) {
            let key = normalize_chars(&id_chars);
            proof {
                assert(lookup_fold(model.sheets@, (2 * i + 1) as nat) == Err::<Map<Seq<char>, Seq<char>>, Seq<char>>(key@));
                lemma_lookup_fold_err(model.sheets@, (2 * i + 1) as nat, 2 * model.sheets@.len());
                lemma_clash_sheet(model.sheets@, (2 * i + 1) as nat, 2 * model.sheets@.len());
            }
            return Err((string_of(&key), i));
        }
        proof {
            assert(lookup_fold(model.sheets@, (2 * i + 1) as nat) == Ok::<Map<Seq<char>, Seq<char>>, Seq<char>>(lookup.view()));
        }
        if !lookup.record(normalize_chars(&name_chars), &sheet.id) {
            let key = normalize_chars(&name_chars);
            proof {
                assert(lookup_fold(model.sheets@, (2 * i + 2) as nat) == Err::<Map<Seq<char>, Seq<char>>, Seq<char>>(key@));
                lemma_lookup_fold_err(model.sheets@, (2 * i + 2) as nat, 2 * model.sheets@.len());
                lemma_clash_sheet(model.sheets@, (2 * i + 2) as nat, 2 * model.sheets@.len());
            }
            return Err((string_of(&key), i));
        }
        i += 1;
    }
    Ok(lookup)
}

/// Resolves every sheet id and name, normalised, to its sheet's id.
pub fn build_sheet_lookup(model: &SpreadsheetModel) -> (res: Result<SheetLookup, FormulaDependencyError>)
    ensures
        match spec_lookup(model.sheets@) {
            Ok(m) => res matches Ok(l) && l.keys_unique() && l.view() == m,
            Err(k) => res matches Err(e) && e matches FormulaDependencyError::AmbiguousSheetName(s)
                && s@ == k,
        },
{
    match sheet_table(model) {
        Ok(lookup) => Ok(lookup),
        Err((key, _)) => Err(FormulaDependencyError::AmbiguousSheetName(key)),
    }
}

pub open spec fn formula_at(model: SpreadsheetModel, i: int, j: int) -> bool {
    &&& 0 <= i < model.sheets@.len()
    &&& 0 <= j < model.sheets@[i].cells@.len()
    &&& model.sheets@[i].cells@[j].formula is Some
}

/// Address of the `j`-th cell of sheet `i`.
pub open spec fn pos_addr(model: SpreadsheetModel, i: int, j: int) -> Addr {
    (model.sheets@[i].id@, model.sheets@[i].cells@[j].row, model.sheets@[i].cells@[j].column)
}

/// What the formula of the `j`-th cell of sheet `i` reads.
pub open spec fn pos_scan(model: SpreadsheetModel, lk: Map<Seq<char>, Seq<char>>, i: int, j: int) -> Result<Set<Addr>, u64> {
    scan(model.sheets@[i].cells@[j].formula->Some_0@, 0, model.sheets@[i].id@, lk)
}

pub open spec fn scan_set(r: Result<Set<Addr>, u64>) -> Set<Addr> {
    match r {
        Ok(s) => s,
        Err(_) => Set::empty(),
    }
}

/// Position `(i2, j2)` comes before `(i, j)` in sheet-then-cell order.
pub open spec fn precedes(i2: int, j2: int, i: int, j: int) -> bool {
    i2 < i || (i2 == i && j2 < j)
}

/// No two formula cells before `(i, j)` share an address.
pub open spec fn distinct_before(model: SpreadsheetModel, i: int, j: int) -> bool {
    forall|i1: int, j1: int, i2: int, j2: int|
        precedes(i1, j1, i, j) && precedes(i2, j2, i, j) && formula_at(model, i1, j1) && formula_at(
            model,
            i2,
            j2,
        ) && (i1 != i2 || j1 != j2) ==> #[trigger] pos_addr(model, i1, j1) != #[trigger] pos_addr(
            model,
            i2,
            j2,
        )
}

/// Every formula before `(i, j)` can be indexed.
pub open spec fn scans_ok_before(model: SpreadsheetModel, lk: Map<Seq<char>, Seq<char>>, i: int, j: int) -> bool {
    forall|i2: int, j2: int|
        precedes(i2, j2, i, j) && formula_at(model, i2, j2) ==> #[trigger] pos_scan(model, lk, i2, j2) is Ok
}

/// Formula cell -> cells read, for the formula cells of the whole workbook.
pub open spec fn formula_map(model: SpreadsheetModel, lk: Map<Seq<char>, Seq<char>>) -> Map<Addr, Set<Addr>> {
    Map::new(
        |a: Addr| exists|i: int, j: int| formula_at(model, i, j) && pos_addr(model, i, j) == a,
        |a: Addr|
            {
                let (i, j) = choose|i: int, j: int| formula_at(model, i, j) && pos_addr(model, i, j) == a;
                scan_set(pos_scan(model, lk, i, j))
            },
    )
}

/// The workbook can be indexed: its sheet names resolve unambiguously, no two
/// formula cells share an address and no formula reads an oversized range.
pub open spec fn indexable(model: SpreadsheetModel) -> bool {
    match spec_lookup(model.sheets@) {
        Ok(lk) => distinct_before(model, model.sheets@.len() as int, 0) && scans_ok_before(
            model,
            lk,
            model.sheets@.len() as int,
            0,
        ),
        Err(_) => false,
    }
}

/// The formula cells that read `source`.
pub open spec fn readers(deps: Map<Addr, Set<Addr>>, source: Addr) -> Set<Addr> {
    Set::new(|f: Addr| deps.contains_key(f) && deps[f].contains(source))
}

/// `dependents` lists, for every cell that some formula reads, exactly the
/// formula cells that read it, and has no entry for cells nobody reads.
pub open spec fn inverse(deps: Map<Addr, Set<Addr>>, dependents: Map<Addr, Set<Addr>>) -> bool {
    &&& forall|s: Addr|
        #[trigger] dependents.contains_key(s) ==> dependents[s] == readers(deps, s) && !dependents[s].is_empty()
    &&& forall|s: Addr| !dependents.contains_key(s) ==> #[trigger] readers(deps, s).is_empty()
}

/// Formula cells and, both ways, the cells they read.
#[derive(Debug, Clone, PartialEq, Eq)]
pub struct FormulaDependencyIndex {
    /// formula cell -> cells read by that formula.
    dependencies: Vec<Entry>,
    /// source cell -> formula cells that read the source.
    dependents: Vec<Entry>,
}

impl FormulaDependencyIndex {
    /// Formula cell -> the cells its formula reads.
    pub closed spec fn deps(&self) -> Map<Addr, Set<Addr>> {
        mv(self.dependencies@)
    }

    /// Source cell -> the formula cells that read it.
    pub closed spec fn rdeps(&self) -> Map<Addr, Set<Addr>> {
        mv(self.dependents@)
    }

    pub closed spec fn wf(&self) -> bool {
        &&& map_wf(self.dependencies@)
        &&& map_wf(self.dependents@)
        &&& inverse(self.deps(), self.rdeps())
    }

    /// A well-formed index names finitely many cells.
    pub proof fn lemma_finite_graph(&self)
        requires
            self.wf(),
        ensures
            graph_cells(self.deps()).finite(),
    {
        crate::scc::lemma_graph_cells_finite(self.dependencies@);
    }

    /// The reverse map always holds, for every cell, exactly the formula
    /// cells that read it.
    pub proof fn law_dependents_are_inverse(&self)
        requires
            self.wf(),
        ensures
            inverse(self.deps(), self.rdeps()),
    {
    }

    /// Every formula cell, in address order.
    pub fn formula_cells(&self) -> (res: Vec<CellAddress>)
        requires
            self.wf(),
        ensures
            lists(res@, self.deps().dom()),
    {
        let mut out: Vec<CellAddress> = Vec::new();
        let mut i: usize = 0;
        proof {
            lemma_mv(self.dependencies@);
        }
        while i < self.dependencies.len()
            invariant
                i <= self.dependencies@.len(),
                self.wf(),
                views(out@) == keys(self.dependencies@).subrange(0, i as int),
            decreases self.dependencies@.len() - i,
        {
            let ghost before = out@;
            out.push(copy_addr(&self.dependencies[i].0));
            proof {
                lemma_views_push(before, out@.last());
                assert(out@ == before.push(out@.last()));
                assert(views(out@) =~= keys(self.dependencies@).subrange(0, i + 1));
            }
            i += 1;
        }
        proof {
            lemma_mv(self.dependencies@);
            lemma_set_view_facts(out@);
            assert(views(out@) =~= keys(self.dependencies@));
            assert forall|a: Addr| set_view(out@).contains(a) <==> self.deps().dom().contains(a) by {
                if set_view(out@).contains(a) {
                    let k = choose|k: int| 0 <= k < out@.len() && av(out@[k]) == a;
                    assert(views(out@)[k] == keys(self.dependencies@)[k]);
                }
                if self.deps().dom().contains(a) {
                    let k = choose|k: int| 0 <= k < self.dependencies@.len() && av(self.dependencies@[k].0) == a;
                    assert(views(out@)[k] == a);
                }
            }
            assert(set_view(out@) =~= self.deps().dom());
        }
        out
    }

    /// A copy of the members of the `i`-th entry of `m`.
    fn members_of(m: &Vec<Entry>, i: usize) -> (res: Vec<CellAddress>)
        requires
            i < m@.len(),
        ensures
            views(res@) == views(m@[i as int].1@),
    {
        let src = &m[i].1;
        let mut out: Vec<CellAddress> = Vec::new();
        let mut k: usize = 0;
        while k < src.len()
            invariant
                k <= src@.len(),
                i < m@.len(),
                src == &m@[i as int].1,
                views(out@) == views(src@).subrange(0, k as int),
            decreases src@.len() - k,
        {
            let ghost before = out@;
            out.push(copy_addr(&src[k]));
            proof {
                lemma_views_push(before, out@.last());
                assert(out@ == before.push(out@.last()));
                assert(views(out@) =~= views(src@).subrange(0, k + 1));
            }
            k += 1;
        }
        proof {
            assert(views(out@) =~= views(src@));
        }
        out
    }

    /// The cells `formula` reads, in address order; empty for a cell without formula.
    pub fn dependencies_of(&self, formula: &CellAddress) -> (res: Vec<CellAddress>)
        requires
            self.wf(),
        ensures
            lists(
                res@,
                if self.deps().contains_key(av(*formula)) {
                    self.deps()[av(*formula)]
                } else {
                    Set::empty()
                },
            ),
    {
        proof {
            lemma_mv(self.dependencies@);
        }
        match map_find(&self.dependencies, formula) {
            Some(i) => {
                let out = Self::members_of(&self.dependencies, i);
                proof {
                    lemma_set_view_facts(out@);
                    lemma_set_view_facts(self.dependencies@[i as int].1@);
                    assert(set_view(out@) =~= set_view(self.dependencies@[i as int].1@));
                }
                out
            },
            None => {
                let out: Vec<CellAddress> = Vec::new();
                proof {
                    assert(set_view(out@) =~= Set::<Addr>::empty());
                }
                out
            },
        }
    }

    /// The formula cells that read `source`, in address order.
    pub fn dependents_of(&self, source: &CellAddress) -> (res: Vec<CellAddress>)
        requires
            self.wf(),
        ensures
            lists(res@, readers(self.deps(), av(*source))),
    {
        proof {
            lemma_mv(self.dependents@);
        }
        match map_find(&self.dependents, source) {
            Some(i) => {
                let out = Self::members_of(&self.dependents, i);
                proof {
                    lemma_set_view_facts(out@);
                    lemma_set_view_facts(self.dependents@[i as int].1@);
                    assert(set_view(out@) =~= set_view(self.dependents@[i as int].1@));
                    assert(self.rdeps().contains_key(av(*source)));
                }
                out
            },
            None => {
                let out: Vec<CellAddress> = Vec::new();
                proof {
                    assert(set_view(out@) =~= Set::<Addr>::empty());
                    assert(readers(self.deps(), av(*source)).is_empty());
                    assert(readers(self.deps(), av(*source)) =~= Set::<Addr>::empty());
                }
                out
            },
        }
    }
}

proof fn lemma_inverse_insert(
    deps: Map<Addr, Set<Addr>>,
    old_rdeps: Map<Addr, Set<Addr>>,
    new_rdeps: Map<Addr, Set<Addr>>,
    f: Addr,
    refs: Set<Addr>,
)
    requires
        inverse(deps, old_rdeps),
        !deps.contains_key(f),
        forall|s: Addr|
            #[trigger] new_rdeps.contains_key(s) <==> (old_rdeps.contains_key(s) || refs.contains(s)),
        forall|s: Addr|
            #[trigger] new_rdeps.contains_key(s) ==> new_rdeps[s] == (if old_rdeps.contains_key(s) {
                old_rdeps[s]
            } else {
                Set::empty()
            }).union(if refs.contains(s) { set![f] } else { Set::empty() }),
    ensures
        inverse(deps.insert(f, refs), new_rdeps),
{
    let nd = deps.insert(f, refs);
    assert forall|s: Addr| #[trigger] new_rdeps.contains_key(s) implies new_rdeps[s] == readers(nd, s)
        && !new_rdeps[s].is_empty() by {
        let base = if old_rdeps.contains_key(s) { old_rdeps[s] } else { Set::empty() };
        assert(base =~= readers(deps, s)) by {
            if !old_rdeps.contains_key(s) {
                assert(readers(deps, s).is_empty());
                assert forall|x: Addr| !readers(deps, s).contains(x) by {}
            }
        }
        assert(new_rdeps[s] =~= readers(nd, s));
        if refs.contains(s) {
            assert(new_rdeps[s].contains(f));
        } else {
            assert(old_rdeps.contains_key(s));
            assert(!old_rdeps[s].is_empty());
            let x = old_rdeps[s].choose();
            assert(old_rdeps[s].contains(x));
        }
    }
    assert forall|s: Addr| !new_rdeps.contains_key(s) implies #[trigger] readers(nd, s).is_empty() by {
        assert(readers(deps, s).is_empty());
        assert forall|x: Addr| !readers(nd, s).contains(x) by {
            assert(!readers(deps, s).contains(x));
        }
    }
}

/// Records that formula cell `f` reads `refs`: `f` joins the readers of each.
fn add_reader_edges(rdeps: &mut Vec<Entry>, refs: &Vec<CellAddress>, f: &CellAddress)
    requires
        map_wf(old(rdeps)@),
    ensures
        map_wf(final(rdeps)@),
        forall|s: Addr|
            #[trigger] mv(final(rdeps)@).contains_key(s) <==> (mv(old(rdeps)@).contains_key(s)
                || set_view(refs@).contains(s)),
        forall|s: Addr|
            #[trigger] mv(final(rdeps)@).contains_key(s) ==> mv(final(rdeps)@)[s] == (if mv(
                old(rdeps)@,
            ).contains_key(s) {
                mv(old(rdeps)@)[s]
            } else {
                Set::empty()
            }).union(if set_view(refs@).contains(s) { set![av(*f)] } else { Set::empty() }),
{
    let ghost start = mv(rdeps@);
    let mut k: usize = 0;
    while k < refs.len()
        invariant
            k <= refs@.len(),
            map_wf(rdeps@),
            forall|s: Addr|
                #[trigger] mv(rdeps@).contains_key(s) <==> (start.contains_key(s)
                    || set_view(refs@.subrange(0, k as int)).contains(s)),
            forall|s: Addr|
                #[trigger] mv(rdeps@).contains_key(s) ==> mv(rdeps@)[s] == (if start.contains_key(s) {
                    start[s]
                } else {
                    Set::empty()
                }).union(
                    if set_view(refs@.subrange(0, k as int)).contains(s) {
                        set![av(*f)]
                    } else {
                        Set::empty()
                    },
                ),
        decreases refs@.len() - k,
    {
        let ghost before = mv(rdeps@);
        map_add_member(rdeps, &refs[k], copy_addr(f));
        proof {
            let pre = refs@.subrange(0, k as int);
            let post = refs@.subrange(0, k + 1);
            assert(post == pre.push(refs@[k as int]));
            lemma_views_push(pre, refs@[k as int]);
            lemma_set_view_facts(pre);
            lemma_set_view_facts(post);
            assert forall|s: Addr| set_view(post).contains(s) <==> (set_view(pre).contains(s) || s == av(refs@[k as int])) by {
                if set_view(post).contains(s) {
                    let q = choose|q: int| 0 <= q < post.len() && av(post[q]) == s;
                    if q < pre.len() {
                        assert(pre[q] == post[q]);
                    }
                }
                if set_view(pre).contains(s) {
                    let q = choose|q: int| 0 <= q < pre.len() && av(pre[q]) == s;
                    assert(pre[q] == post[q]);
                }
                if s == av(refs@[k as int]) {
                    assert(post[k as int] == refs@[k as int]);
                }
            }
            assert forall|s: Addr| #[trigger] mv(rdeps@).contains_key(s) implies mv(rdeps@)[s] == (if start.contains_key(s) {
                start[s]
            } else {
                Set::empty()
            }).union(if set_view(post).contains(s) { set![av(*f)] } else { Set::empty() }) by {
                if s == av(refs@[k as int]) {
                    let base = if start.contains_key(s) { start[s] } else { Set::<Addr>::empty() };
                    if before.contains_key(s) {
                        assert(mv(rdeps@)[s] =~= base.union(set![av(*f)]));
                    } else {
                        assert(mv(rdeps@)[s] =~= base.union(set![av(*f)]));
                    }
                } else {
                    assert(mv(rdeps@)[s] == before[s]);
                }
            }
        }
        k += 1;
    }
    proof {
        assert(refs@.subrange(0, refs@.len() as int) =~= refs@);
    }
}

/// The edges of every formula cell before `(i, j)` are recorded, and only those.
pub open spec fn indexed_before(
    model: SpreadsheetModel,
    lk: Map<Seq<char>, Seq<char>>,
    deps: Map<Addr, Set<Addr>>,
    i: int,
    j: int,
) -> bool {
    &&& forall|a: Addr|
        #[trigger] deps.contains_key(a) <==> exists|i2: int, j2: int|
            precedes(i2, j2, i, j) && formula_at(model, i2, j2) && pos_addr(model, i2, j2) == a
    &&& forall|i2: int, j2: int|
        precedes(i2, j2, i, j) && formula_at(model, i2, j2) ==> deps[#[trigger] pos_addr(model, i2, j2)]
            == scan_set(pos_scan(model, lk, i2, j2))
    &&& distinct_before(model, i, j)
    &&& scans_ok_before(model, lk, i, j)
}


/// Refuses a workbook in which two sheets share an id.
pub const DUPLICATE_SHEET_ID: &'static str = "sheet id 重复";

/// Refuses a workbook in which two cells of a sheet share a position.
pub const DUPLICATE_CELL_POSITION: &'static str = "单元格坐标重复";

/// Whether no two cells of the list share a row and column.
fn cells_unique(cells: &Vec<CellModel>) -> (res: bool)
    ensures
        res == forall|j1: int, j2: int|
            0 <= j1 < cells@.len() && 0 <= j2 < cells@.len() && j1 != j2 ==> !((#[trigger] cells@[j1]).row
                == (#[trigger] cells@[j2]).row && cells@[j1].column == cells@[j2].column),
{
    broadcast use vstd::std_specs::hash::group_hash_axioms;

    let mut seen: HashSet<u64> = HashSet::new();
    let mut k: usize = 0;
    while k < cells.len()
        invariant
            k <= cells@.len(),
            forall|j1: int, j2: int|
                0 <= j1 < k && 0 <= j2 < k && j1 != j2 ==> !((#[trigger] cells@[j1]).row == (#[trigger] cells@[j2]).row
                    && cells@[j1].column == cells@[j2].column),
            forall|x: u64| #[trigger] seen@.contains(x) <==> exists|m: int| 0 <= m < k && x == offset_key(cells@[m].row, cells@[m].column),
        decreases cells@.len() - k,
    {
        let cell = &cells[k];
        let key = (cell.row as u64) * 4294967296 + cell.column as u64;
        proof {
            assert(key == offset_key(cell.row, cell.column));
        }
        if !seen.insert(key) {
            proof {
                let m = choose|m: int| 0 <= m < k && key == offset_key(cells@[m].row, cells@[m].column);
                lemma_offset_key(cell.row, cell.column, cells@[m].row, cells@[m].column);
                assert(cells@[m].row == cells@[k as int].row && cells@[m].column == cells@[k as int].column);
            }
            return false;
        }
        proof {
            assert forall|j1: int, j2: int|
                0 <= j1 < k + 1 && 0 <= j2 < k + 1 && j1 != j2 implies !((#[trigger] cells@[j1]).row == (#[trigger] cells@[j2]).row
                    && cells@[j1].column == cells@[j2].column) by {
                if j1 == k || j2 == k {
                    let o = if j1 == k { j2 } else { j1 };
                    lemma_offset_key(cells@[o].row, cells@[o].column, cell.row, cell.column);
                    assert(!(key == offset_key(cells@[o].row, cells@[o].column)));
                }
            }
            assert forall|x: u64| #[trigger] seen@.contains(x) <==> exists|m: int| 0 <= m < k + 1 && x == offset_key(cells@[m].row, cells@[m].column) by {
                if exists|m: int| 0 <= m < k + 1 && x == offset_key(cells@[m].row, cells@[m].column) {
                    let m = choose|m: int| 0 <= m < k + 1 && x == offset_key(cells@[m].row, cells@[m].column);
                    if m < k {
                        assert(exists|m2: int| 0 <= m2 < k && x == offset_key(cells@[m2].row, cells@[m2].column));
                    }
                }
                if exists|m: int| 0 <= m < k && x == offset_key(cells@[m].row, cells@[m].column) {
                    let m = choose|m: int| 0 <= m < k && x == offset_key(cells@[m].row, cells@[m].column);
                    assert(0 <= m < k + 1);
                }
            }
        }
        k += 1;
    }
    true
}

/// Checks the workbook's schema: distinct sheet ids, and one cell per
/// position in each sheet.
pub fn validate_snapshot(model: &SpreadsheetModel) -> (res: Result<(), FormulaDependencyError>)
    ensures
        res is Ok <==> sheet_ids_distinct(*model) && cells_distinct(*model),
        res matches Err(e) ==> (e matches FormulaDependencyError::Schema(m) && (m@ == DUPLICATE_SHEET_ID@
            || m@ == DUPLICATE_CELL_POSITION@)),
{
    let mut i: usize = 0;
    while i < model.sheets.len()
        invariant
            i <= model.sheets@.len(),
            forall|i1: int, i2: int|
                0 <= i1 < i && 0 <= i2 < i && i1 != i2 ==> (#[trigger] model.sheets@[i1]).id@ != (#[trigger] model.sheets@[i2]).id@,
            forall|s: int, j1: int, j2: int|
                0 <= s < i && 0 <= j1 < model.sheets@[s].cells@.len() && 0 <= j2 < model.sheets@[s].cells@.len() && j1 != j2
                    ==> !((#[trigger] model.sheets@[s].cells@[j1]).row == (#[trigger] model.sheets@[s].cells@[j2]).row
                    && model.sheets@[s].cells@[j1].column == model.sheets@[s].cells@[j2].column),
        decreases model.sheets@.len() - i,
    {
        let mut p: usize = 0;
        while p < i
            invariant
                i < model.sheets@.len(),
                p <= i,
                forall|q: int| 0 <= q < p ==> (#[trigger] model.sheets@[q]).id@ != model.sheets@[i as int].id@,
            decreases i - p,
        {
            if same_text(model.sheets[p].id.as_str(), model.sheets[i].id.as_str()) {
                proof {
                    assert(!sheet_ids_distinct(*model)) by {
                        assert(model.sheets@[p as int].id@ == model.sheets@[i as int].id@);
                    }
                }
                return Err(FormulaDependencyError::Schema(String::from_str(DUPLICATE_SHEET_ID)));
            }
            p += 1;
        }
        if !cells_unique(&model.sheets[i].cells) {
            proof {
                assert(!cells_distinct(*model)) by {
                    let c = model.sheets@[i as int].cells@;
                    let (j1, j2) = choose|j1: int, j2: int|
                        0 <= j1 < c.len() && 0 <= j2 < c.len() && j1 != j2 && (#[trigger] c[j1]).row == (#[trigger] c[j2]).row
                            && c[j1].column == c[j2].column;
                    assert(model.sheets@[i as int].cells@[j1] == c[j1]);
                }
            }
            return Err(FormulaDependencyError::Schema(String::from_str(DUPLICATE_CELL_POSITION)));
        }
        i += 1;
    }
    Ok(())
}

impl FormulaDependencyIndex {
    /// Builds the index of a workbook snapshot.
    #[verifier::rlimit(100)]
    #[verifier::spinoff_prover]
    pub fn from_model(model: &SpreadsheetModel) -> (res: Result<Self, FormulaDependencyError>)
        ensures
            res is Ok <==> snapshot_indexable(*model),
            (res matches Err(e) && e is Schema) <==> !(sheet_ids_distinct(*model) && cells_distinct(*model)),
            res matches Ok(index) ==> index.wf() && (spec_lookup(model.sheets@) matches Ok(lk)
                && index.deps() == formula_map(*model, lk)),
            res matches Err(e) ==> match e {
                FormulaDependencyError::AmbiguousSheetName(k) => spec_lookup(model.sheets@) == Err::<
                    Map<Seq<char>, Seq<char>>,
                    Seq<char>,
                >(k@),
                FormulaDependencyError::RangeTooLarge(c) => (spec_lookup(model.sheets@) matches Ok(lk)
                    && exists|i: int, j: int|
                    #![trigger pos_scan(*model, lk, i, j)]
                    formula_at(*model, i, j) && pos_scan(*model, lk, i, j) == Err::<Set<Addr>, u64>(c)
                        && scans_ok_before(*model, lk, i, j) && distinct_before(*model, i, j)),
                FormulaDependencyError::DuplicateCell(a) => (spec_lookup(model.sheets@) matches Ok(lk)
                    && exists|i: int, j: int|
                    #![trigger pos_addr(*model, i, j)]
                    formula_at(*model, i, j) && pos_addr(*model, i, j) == av(a) && pos_scan(*model, lk, i, j) is Ok
                        && scans_ok_before(*model, lk, i, j) && distinct_before(*model, i, j) && exists|i2: int, j2: int|
                        precedes(i2, j2, i, j) && formula_at(*model, i2, j2) && pos_addr(*model, i2, j2) == av(a)),
                FormulaDependencyError::Schema(m) => m@ == DUPLICATE_SHEET_ID@ || m@ == DUPLICATE_CELL_POSITION@,
            },
    {
        match validate_snapshot(model) {
            Ok(()) => {},
            Err(e) => {
                return Err(e);
            },
        }
        let lookup = match build_sheet_lookup(model) {
            Ok(l) => l,
            Err(e) => {
                return Err(e);
            },
        };
        let ghost lk = lookup.view();
        let mut deps: Vec<Entry> = Vec::new();
        let mut rdeps: Vec<Entry> = Vec::new();
        proof {
            lemma_mv(deps@);
            lemma_mv(rdeps@);
            assert(mv(deps@) =~= Map::<Addr, Set<Addr>>::empty());
            assert(mv(rdeps@) =~= Map::<Addr, Set<Addr>>::empty());
            assert forall|x: Addr| #[trigger] readers(mv(deps@), x).is_empty() by {
                assert(readers(mv(deps@), x) =~= Set::<Addr>::empty());
            }
        }
        let mut i: usize = 0;
        while i < model.sheets.len()
            invariant
                i <= model.sheets@.len(),
                lookup.keys_unique(),
                lookup.view() == lk,
                spec_lookup(model.sheets@) == Ok::<Map<Seq<char>, Seq<char>>, Seq<char>>(lk),
                map_wf(deps@),
                map_wf(rdeps@),
                inverse(mv(deps@), mv(rdeps@)),
                indexed_before(*model, lk, mv(deps@), i as int, 0),
                sheet_ids_distinct(*model) && cells_distinct(*model),
            decreases model.sheets@.len() - i,
        {
            let sheet = &model.sheets[i];
            let mut j: usize = 0;
            while j < sheet.cells.len()
                invariant
                    i < model.sheets@.len(),
                    sheet == &model.sheets@[i as int],
                    j <= sheet.cells@.len(),
                    lookup.keys_unique(),
                    lookup.view() == lk,
                    spec_lookup(model.sheets@) == Ok::<Map<Seq<char>, Seq<char>>, Seq<char>>(lk),
                    map_wf(deps@),
                    map_wf(rdeps@),
                    inverse(mv(deps@), mv(rdeps@)),
                    indexed_before(*model, lk, mv(deps@), i as int, j as int),
                    sheet_ids_distinct(*model) && cells_distinct(*model),
                decreases sheet.cells@.len() - j,
            {
                let cell = &sheet.cells[j];
                match &cell.formula {
                    None => {
                        proof {
                            assert(!formula_at(*model, i as int, j as int));
                            lemma_indexed_step(*model, lk, mv(deps@), i as int, j as int);
                        }
                    },
                    Some(formula) => {
                        let address = CellAddress {
                            sheet_id: sheet.id.clone(),
                            row: cell.row,
                            column: cell.column,
                        };
                        proof {
                            assert(av(address) == pos_addr(*model, i as int, j as int));
                            assert(formula_at(*model, i as int, j as int));
                        }
                        let refs = match parse_references(formula.as_str(), sheet.id.as_str(), &lookup) {
                            Ok(r) => r,
                            Err(e) => {
                                proof {
                                    assert(!scans_ok_before(*model, lk, model.sheets@.len() as int, 0));
                                    let c = pos_scan(*model, lk, i as int, j as int)->Err_0;
                                    assert(e == FormulaDependencyError::RangeTooLarge(c));
                                    assert(formula_at(*model, i as int, j as int) && pos_scan(*model, lk, i as int, j as int)
                                        == Err::<Set<Addr>, u64>(c) && scans_ok_before(*model, lk, i as int, j as int)
                                        && distinct_before(*model, i as int, j as int));
                                }
                                return Err(e);
                            },
                        };
                        if map_find(&deps, &address).is_some() {
                            proof {
                                let a = av(address);
                                assert(mv(deps@).contains_key(a)) by {
                                    lemma_mv(deps@);
                                }
                                let (i2, j2) = choose|i2: int, j2: int|
                                    precedes(i2, j2, i as int, j as int) && formula_at(*model, i2, j2) && pos_addr(*model, i2, j2) == a;
                                assert(!distinct_before(*model, model.sheets@.len() as int, 0)) by {
                                    assert(pos_addr(*model, i2, j2) == pos_addr(*model, i as int, j as int));
                                }
                            }
                            return Err(FormulaDependencyError::DuplicateCell(address));
                        }
                        let ghost old_deps = mv(deps@);
                        let ghost old_rdeps = mv(rdeps@);
                        add_reader_edges(&mut rdeps, &refs, &address);
                        let ghost refs_set = set_view(refs@);
                        map_insert(&mut deps, address, refs);
                        proof {
                            lemma_inverse_insert(old_deps, old_rdeps, mv(rdeps@), av(address), refs_set);
                            lemma_indexed_insert(*model, lk, old_deps, i as int, j as int, refs_set);
                        }
                    },
                }
                j += 1;
            }
            proof {
                lemma_indexed_next_sheet(*model, lk, mv(deps@), i as int);
            }
            i += 1;
        }
        proof {
            lemma_indexed_complete(*model, lk, mv(deps@));
        }
        Ok(FormulaDependencyIndex { dependencies: deps, dependents: rdeps })
    }
}

#[verifier::rlimit(60)]
proof fn lemma_indexed_step(model: SpreadsheetModel, lk: Map<Seq<char>, Seq<char>>, deps: Map<Addr, Set<Addr>>, i: int, j: int)
    requires
        indexed_before(model, lk, deps, i, j),
        !formula_at(model, i, j),
    ensures
        indexed_before(model, lk, deps, i, j + 1),
{
    assert forall|a: Addr| #[trigger] deps.contains_key(a) <==> exists|i2: int, j2: int|
        precedes(i2, j2, i, j + 1) && formula_at(model, i2, j2) && pos_addr(model, i2, j2) == a by {
        if exists|i2: int, j2: int| precedes(i2, j2, i, j + 1) && formula_at(model, i2, j2) && pos_addr(model, i2, j2) == a {
            let (i2, j2) = choose|i2: int, j2: int| precedes(i2, j2, i, j + 1) && formula_at(model, i2, j2) && pos_addr(model, i2, j2) == a;
            assert(precedes(i2, j2, i, j));
        }
    }
    assert forall|i1: int, j1: int, i2: int, j2: int|
        precedes(i1, j1, i, j + 1) && precedes(i2, j2, i, j + 1) && formula_at(model, i1, j1) && formula_at(model, i2, j2)
            && (i1 != i2 || j1 != j2) implies #[trigger] pos_addr(model, i1, j1) != #[trigger] pos_addr(model, i2, j2) by {
        assert(precedes(i1, j1, i, j) && precedes(i2, j2, i, j));
    }
    assert forall|i2: int, j2: int|
        precedes(i2, j2, i, j + 1) && formula_at(model, i2, j2) implies #[trigger] pos_scan(model, lk, i2, j2) is Ok by {
        assert(precedes(i2, j2, i, j));
    }
    assert forall|i2: int, j2: int|
        precedes(i2, j2, i, j + 1) && formula_at(model, i2, j2) implies deps[#[trigger] pos_addr(model, i2, j2)]
            == scan_set(pos_scan(model, lk, i2, j2)) by {
        assert(precedes(i2, j2, i, j));
    }
}

proof fn lemma_indexed_insert(model: SpreadsheetModel, lk: Map<Seq<char>, Seq<char>>, deps: Map<Addr, Set<Addr>>, i: int, j: int, refs: Set<Addr>)
    requires
        indexed_before(model, lk, deps, i, j),
        formula_at(model, i, j),
        !deps.contains_key(pos_addr(model, i, j)),
        pos_scan(model, lk, i, j) == Ok::<Set<Addr>, u64>(refs),
    ensures
        indexed_before(model, lk, deps.insert(pos_addr(model, i, j), refs), i, j + 1),
{
    let nd = deps.insert(pos_addr(model, i, j), refs);
    let p = pos_addr(model, i, j);
    assert forall|a: Addr| #[trigger] nd.contains_key(a) <==> exists|i2: int, j2: int|
        precedes(i2, j2, i, j + 1) && formula_at(model, i2, j2) && pos_addr(model, i2, j2) == a by {
        if exists|i2: int, j2: int| precedes(i2, j2, i, j + 1) && formula_at(model, i2, j2) && pos_addr(model, i2, j2) == a {
            let (i2, j2) = choose|i2: int, j2: int| precedes(i2, j2, i, j + 1) && formula_at(model, i2, j2) && pos_addr(model, i2, j2) == a;
            if i2 != i || j2 != j {
                assert(precedes(i2, j2, i, j));
            }
        }
        if deps.contains_key(a) {
            let (i2, j2) = choose|i2: int, j2: int| precedes(i2, j2, i, j) && formula_at(model, i2, j2) && pos_addr(model, i2, j2) == a;
            assert(precedes(i2, j2, i, j + 1));
        }
        if a == p {
            assert(precedes(i, j, i, j + 1));
        }
    }
    assert forall|i1: int, j1: int, i2: int, j2: int|
        precedes(i1, j1, i, j + 1) && precedes(i2, j2, i, j + 1) && formula_at(model, i1, j1) && formula_at(model, i2, j2)
            && (i1 != i2 || j1 != j2) implies #[trigger] pos_addr(model, i1, j1) != #[trigger] pos_addr(model, i2, j2) by {
        if i1 == i && j1 == j {
            assert(precedes(i2, j2, i, j));
            assert(deps.contains_key(pos_addr(model, i2, j2)));
        } else if i2 == i && j2 == j {
            assert(precedes(i1, j1, i, j));
            assert(deps.contains_key(pos_addr(model, i1, j1)));
        } else {
            assert(precedes(i1, j1, i, j) && precedes(i2, j2, i, j));
        }
    }
    assert forall|i2: int, j2: int|
        precedes(i2, j2, i, j + 1) && formula_at(model, i2, j2) implies #[trigger] pos_scan(model, lk, i2, j2) is Ok by {
        if i2 != i || j2 != j {
            assert(precedes(i2, j2, i, j));
        }
    }
    assert forall|i2: int, j2: int|
        precedes(i2, j2, i, j + 1) && formula_at(model, i2, j2) implies nd[#[trigger] pos_addr(model, i2, j2)]
            == scan_set(pos_scan(model, lk, i2, j2)) by {
        if i2 != i || j2 != j {
            assert(precedes(i2, j2, i, j));
            assert(deps.contains_key(pos_addr(model, i2, j2)));
        }
    }
}

proof fn lemma_indexed_next_sheet(model: SpreadsheetModel, lk: Map<Seq<char>, Seq<char>>, deps: Map<Addr, Set<Addr>>, i: int)
    requires
        0 <= i < model.sheets@.len(),
        indexed_before(model, lk, deps, i, model.sheets@[i].cells@.len() as int),
    ensures
        indexed_before(model, lk, deps, i + 1, 0),
{
    let n = model.sheets@[i].cells@.len() as int;
    assert forall|i2: int, j2: int| formula_at(model, i2, j2) implies (precedes(i2, j2, i + 1, 0) <==> #[trigger] precedes(i2, j2, i, n)) by {}
    assert forall|a: Addr| #[trigger] deps.contains_key(a) <==> exists|i2: int, j2: int|
        precedes(i2, j2, i + 1, 0) && formula_at(model, i2, j2) && pos_addr(model, i2, j2) == a by {
        if exists|i2: int, j2: int| precedes(i2, j2, i + 1, 0) && formula_at(model, i2, j2) && pos_addr(model, i2, j2) == a {
            let (i2, j2) = choose|i2: int, j2: int| precedes(i2, j2, i + 1, 0) && formula_at(model, i2, j2) && pos_addr(model, i2, j2) == a;
            assert(precedes(i2, j2, i, n));
        }
        if deps.contains_key(a) {
            let (i2, j2) = choose|i2: int, j2: int| precedes(i2, j2, i, n) && formula_at(model, i2, j2) && pos_addr(model, i2, j2) == a;
            assert(precedes(i2, j2, i + 1, 0));
        }
    }
    assert forall|i1: int, j1: int, i2: int, j2: int|
        precedes(i1, j1, i + 1, 0) && precedes(i2, j2, i + 1, 0) && formula_at(model, i1, j1) && formula_at(model, i2, j2)
            && (i1 != i2 || j1 != j2) implies #[trigger] pos_addr(model, i1, j1) != #[trigger] pos_addr(model, i2, j2) by {
        assert(precedes(i1, j1, i, n) && precedes(i2, j2, i, n));
    }
    assert forall|i2: int, j2: int|
        precedes(i2, j2, i + 1, 0) && formula_at(model, i2, j2) implies #[trigger] pos_scan(model, lk, i2, j2) is Ok by {
        assert(precedes(i2, j2, i, n));
    }
    assert forall|i2: int, j2: int|
        precedes(i2, j2, i + 1, 0) && formula_at(model, i2, j2) implies deps[#[trigger] pos_addr(model, i2, j2)]
            == scan_set(pos_scan(model, lk, i2, j2)) by {
        assert(precedes(i2, j2, i, n));
    }
}

proof fn lemma_indexed_complete(model: SpreadsheetModel, lk: Map<Seq<char>, Seq<char>>, deps: Map<Addr, Set<Addr>>)
    requires
        indexed_before(model, lk, deps, model.sheets@.len() as int, 0),
    ensures
        deps == formula_map(model, lk),
{
    let n = model.sheets@.len() as int;
    assert forall|a: Addr| #[trigger] deps.contains_key(a) <==> formula_map(model, lk).contains_key(a) by {
        if formula_map(model, lk).contains_key(a) {
            let (i2, j2) = choose|i2: int, j2: int| formula_at(model, i2, j2) && pos_addr(model, i2, j2) == a;
            assert(precedes(i2, j2, n, 0));
        }
    }
    assert forall|a: Addr| #[trigger] deps.contains_key(a) implies deps[a] == formula_map(model, lk)[a] by {
        let (i2, j2) = choose|i2: int, j2: int| formula_at(model, i2, j2) && pos_addr(model, i2, j2) == a;
        assert(precedes(i2, j2, n, 0));
    }
    assert(deps =~= formula_map(model, lk));
}

/// A set of cells that contains every reader of each of its cells.
pub open spec fn closed(deps: Map<Addr, Set<Addr>>, n: Set<Addr>) -> bool {
    forall|s: Addr, f: Addr| n.contains(s) && #[trigger] readers(deps, s).contains(f) ==> n.contains(f)
}

/// `n` is the least set that contains `changed` and every reader of its cells:
/// the changed cells and all formula cells that depend on them, directly or not.
pub open spec fn is_reverse_closure(deps: Map<Addr, Set<Addr>>, changed: Set<Addr>, n: Set<Addr>) -> bool {
    &&& changed.subset_of(n)
    &&& closed(deps, n)
    &&& forall|s: Set<Addr>| changed.subset_of(s) && #[trigger] closed(deps, s) ==> n.subset_of(s)
}

proof fn lemma_distinct_bound(q: Seq<Addr>, a: Seq<Addr>, b: Seq<Addr>)
    requires
        q.no_duplicates(),
        q.to_set().subset_of(a.to_set().union(b.to_set())),
    ensures
        q.len() <= a.len() + b.len(),
{
    q.unique_seq_to_set();
    a.lemma_cardinality_of_set();
    b.lemma_cardinality_of_set();
    vstd::seq_lib::seq_to_set_is_finite(a);
    vstd::seq_lib::seq_to_set_is_finite(b);
    vstd::set_lib::lemma_len_union(a.to_set(), b.to_set());
    vstd::set_lib::lemma_len_subset(q.to_set(), a.to_set().union(b.to_set()));
}

impl FormulaDependencyIndex {
    /// The changed cells together with every formula cell that depends on
    /// them, directly or through other formulas, in address order.
    #[verifier::rlimit(50)]
    pub fn reverse_closure(&self, changed: &[CellAddress]) -> (res: Vec<CellAddress>)
        requires
            self.wf(),
        ensures
            strictly_sorted(views(res@)),
            is_reverse_closure(self.deps(), set_view(changed@), set_view(res@)),
    {
        let ghost deps = self.deps();
        let ghost c = set_view(changed@);
        let ghost dom_keys = keys(self.dependencies@);
        let mut nodes: Vec<CellAddress> = Vec::new();
        let mut queue: Vec<CellAddress> = Vec::new();
        let mut k: usize = 0;
        proof {
            assert(set_view(nodes@) =~= Set::<Addr>::empty());
            assert(views(queue@) =~= Seq::<Addr>::empty());
        }
        while k < changed.len()
            invariant
                k <= changed@.len(),
                strictly_sorted(views(nodes@)),
                set_view(nodes@) == set_view(changed@.subrange(0, k as int)),
                views(queue@).no_duplicates(),
                views(queue@).to_set() == set_view(nodes@),
            decreases changed@.len() - k,
        {
            let ghost before = nodes@;
            let ghost qbefore = queue@;
            if !crate::addr_set::sorted_contains(&nodes, &changed[k]) {
                sorted_insert(&mut nodes, copy_addr(&changed[k]));
                queue.push(copy_addr(&changed[k]));
                proof {
                    lemma_views_push(qbefore, queue@.last());
                    assert(queue@ == qbefore.push(queue@.last()));
                    lemma_push_to_set(views(qbefore), av(queue@.last()));
                }
            }
            proof {
                let pre = changed@.subrange(0, k as int);
                let post = changed@.subrange(0, k + 1);
                assert(post == pre.push(changed@[k as int]));
                lemma_views_push(pre, changed@[k as int]);
                lemma_set_view_push(pre, changed@[k as int]);
            }
            k += 1;
        }
        proof {
            assert(changed@.subrange(0, changed@.len() as int) =~= changed@);
            lemma_mv(self.dependencies@);
        }
        let ghost bound = changed@.len() + self.dependencies@.len();
        let mut qi: usize = 0;
        while qi < queue.len()
            invariant
                self.wf(),
                deps == self.deps(),
                dom_keys == keys(self.dependencies@),
                c == set_view(changed@),
                bound == changed@.len() + self.dependencies@.len(),
                qi <= queue@.len(),
                strictly_sorted(views(nodes@)),
                views(queue@).no_duplicates(),
                views(queue@).to_set() == set_view(nodes@),
                c.subset_of(set_view(nodes@)),
                set_view(nodes@).subset_of(views(changed@).to_set().union(dom_keys.to_set())),
                forall|j: int| 0 <= j < qi ==> #[trigger] readers(deps, views(queue@)[j]).subset_of(set_view(nodes@)),
                forall|s: Set<Addr>| c.subset_of(s) && #[trigger] closed(deps, s) ==> set_view(nodes@).subset_of(s),
            decreases bound - qi,
        {
            proof {
                lemma_distinct_bound(views(queue@), views(changed@), dom_keys);
            }
            let readers_vec = self.dependents_of(&queue[qi]);
            let ghost src = av(queue@[qi as int]);
            let mut r: usize = 0;
            while r < readers_vec.len()
                invariant
                    self.wf(),
                    deps == self.deps(),
                    dom_keys == keys(self.dependencies@),
                    c == set_view(changed@),
                    qi < queue@.len(),
                    src == av(queue@[qi as int]),
                    lists(readers_vec@, readers(deps, src)),
                    r <= readers_vec@.len(),
                    strictly_sorted(views(nodes@)),
                    views(queue@).no_duplicates(),
                    views(queue@).to_set() == set_view(nodes@),
                    c.subset_of(set_view(nodes@)),
                    set_view(nodes@).subset_of(views(changed@).to_set().union(dom_keys.to_set())),
                    forall|j: int| 0 <= j < qi ==> #[trigger] readers(deps, views(queue@)[j]).subset_of(set_view(nodes@)),
                    forall|t: int| 0 <= t < r ==> set_view(nodes@).contains(#[trigger] av(readers_vec@[t])),
                    forall|s: Set<Addr>| c.subset_of(s) && #[trigger] closed(deps, s) ==> set_view(nodes@).subset_of(s),
                decreases readers_vec@.len() - r,
            {
                let ghost before = nodes@;
                let ghost qbefore = queue@;
                proof {
                    lemma_set_view_facts(readers_vec@);
                    assert(readers(deps, src).contains(av(readers_vec@[r as int])));
                }
                if !crate::addr_set::sorted_contains(&nodes, &readers_vec[r]) {
                    let d = copy_addr(&readers_vec[r]);
                    sorted_insert(&mut nodes, copy_addr(&readers_vec[r]));
                    queue.push(d);
                    proof {
                        let x = av(readers_vec@[r as int]);
                        lemma_views_push(qbefore, queue@.last());
                        assert(queue@ == qbefore.push(queue@.last()));
                        lemma_push_to_set(views(qbefore), av(queue@.last()));
                        assert(views(queue@)[qi as int] == views(qbefore)[qi as int]);
                        assert forall|j: int| 0 <= j < qi implies #[trigger] readers(deps, views(queue@)[j]).subset_of(set_view(nodes@)) by {
                            assert(views(queue@)[j] == views(qbefore)[j]);
                            assert(readers(deps, views(qbefore)[j]).subset_of(set_view(before)));
                        }
                        assert(dom_keys.to_set().contains(x)) by {
                            let y = choose|y: int| 0 <= y < self.dependencies@.len() && av(self.dependencies@[y].0) == x;
                            assert(dom_keys[y] == x);
                        }
                        assert forall|s: Set<Addr>| c.subset_of(s) && #[trigger] closed(deps, s) implies set_view(nodes@).subset_of(s) by {
                            assert(set_view(before).subset_of(s));
                            assert(views(qbefore).to_set().contains(src));
                            assert(s.contains(src));
                            assert(s.contains(x));
                        }
                    }
                }
                proof {
                    assert(set_view(before).subset_of(set_view(nodes@)));
                }
                r += 1;
            }
            proof {
                assert(readers(deps, views(queue@)[qi as int]).subset_of(set_view(nodes@))) by {
                    assert(views(queue@)[qi as int] == src);
                    lemma_set_view_facts(readers_vec@);
                    assert forall|x: Addr| readers(deps, src).contains(x) implies set_view(nodes@).contains(x) by {
                        assert(set_view(readers_vec@).contains(x));
                        let t = choose|t: int| 0 <= t < readers_vec@.len() && av(readers_vec@[t]) == x;
                    }
                }
            }
            qi += 1;
        }
        proof {
            assert forall|s: Addr, f: Addr| set_view(nodes@).contains(s) && #[trigger] readers(deps, s).contains(f)
                implies set_view(nodes@).contains(f) by {
                assert(views(queue@).to_set().contains(s));
                let j = choose|j: int| 0 <= j < views(queue@).len() && views(queue@)[j] == s;
                assert(readers(deps, views(queue@)[j]).subset_of(set_view(nodes@)));
            }
        }
        nodes
    }
}

/// A dependency edge: `dependent` is a formula cell that reads `source`.
#[derive(Debug, Clone, PartialEq, Eq, Hash, PartialOrd, Ord)]
pub struct FormulaDependencyEdge {
    pub source: CellAddress,
    pub dependent: CellAddress,
}

pub open spec fn ev(e: FormulaDependencyEdge) -> (Addr, Addr) {
    (av(e.source), av(e.dependent))
}

pub open spec fn edge_views(s: Seq<FormulaDependencyEdge>) -> Seq<(Addr, Addr)> {
    s.map_values(|e: FormulaDependencyEdge| ev(e))
}

/// Edges order by source, then by dependent.
pub open spec fn edge_lt(x: (Addr, Addr), y: (Addr, Addr)) -> bool {
    addr_lt(x.0, y.0) || (x.0 == y.0 && addr_lt(x.1, y.1))
}

pub open spec fn edges_sorted(s: Seq<(Addr, Addr)>) -> bool {
    forall|i: int, j: int| 0 <= i < j < s.len() ==> edge_lt(#[trigger] s[i], #[trigger] s[j])
}

/// Every edge from a cell of `n` to one of its readers.
pub open spec fn edge_set(deps: Map<Addr, Set<Addr>>, n: Set<Addr>) -> Set<(Addr, Addr)> {
    Set::new(|p: (Addr, Addr)| n.contains(p.0) && readers(deps, p.0).contains(p.1))
}

/// `o` lists each cell of `n` once, and every edge goes from an earlier to a
/// later cell.
pub open spec fn is_topo_order(o: Seq<Addr>, n: Set<Addr>, e: Set<(Addr, Addr)>) -> bool {
    &&& o.no_duplicates()
    &&& o.to_set() == n
    &&& forall|i: int, j: int|
        0 <= i < o.len() && 0 <= j < o.len() && #[trigger] e.contains((o[i], o[j])) ==> i < j
}

/// A bounded subgraph of the dependency graph and, when it is acyclic, an
/// evaluation order for it.
#[derive(Debug, Clone, PartialEq, Eq)]
pub struct FormulaDependencySubgraph {
    pub nodes: Vec<CellAddress>,
    pub edges: Vec<FormulaDependencyEdge>,
    pub cyclic: bool,
    pub topological_order: Option<Vec<CellAddress>>,
}

impl FormulaDependencyIndex {
    /// Every edge leaving a cell of `nodes`, ordered by source then dependent.
    #[verifier::rlimit(50)]
    pub fn edges_from(&self, nodes: &Vec<CellAddress>) -> (res: Vec<FormulaDependencyEdge>)
        requires
            self.wf(),
            strictly_sorted(views(nodes@)),
        ensures
            edges_sorted(edge_views(res@)),
            edge_views(res@).to_set() == edge_set(self.deps(), set_view(nodes@)),
    {
        let ghost deps = self.deps();
        let mut out: Vec<FormulaDependencyEdge> = Vec::new();
        let mut i: usize = 0;
        proof {
            assert(edge_views(out@).to_set() =~= Set::<(Addr, Addr)>::empty());
        }
        while i < nodes.len()
            invariant
                self.wf(),
                deps == self.deps(),
                i <= nodes@.len(),
                strictly_sorted(views(nodes@)),
                edges_sorted(edge_views(out@)),
                i < nodes@.len() ==> forall|q: int| 0 <= q < out@.len() ==> addr_lt(#[trigger] edge_views(out@)[q].0, views(nodes@)[i as int]),
                forall|p: (Addr, Addr)| #[trigger] edge_views(out@).to_set().contains(p) <==> (
                    (exists|i2: int| 0 <= i2 < i && p.0 == views(nodes@)[i2]) && readers(deps, p.0).contains(p.1)),
            decreases nodes@.len() - i,
        {
            let ds = self.dependents_of(&nodes[i]);
            let ghost src = av(nodes@[i as int]);
            proof {
                assert(views(nodes@)[i as int] == src);
            }
            let mut r: usize = 0;
            while r < ds.len()
                invariant
                    self.wf(),
                    deps == self.deps(),
                    i < nodes@.len(),
                    src == av(nodes@[i as int]),
                    strictly_sorted(views(nodes@)),
                    lists(ds@, readers(deps, src)),
                    r <= ds@.len(),
                    edges_sorted(edge_views(out@)),
                    forall|q: int| 0 <= q < out@.len() ==> addr_lt(#[trigger] edge_views(out@)[q].0, src)
                        || (edge_views(out@)[q].0 == src && exists|t: int| 0 <= t < r && edge_views(out@)[q].1 == views(ds@)[t]),
                    forall|p: (Addr, Addr)| #[trigger] edge_views(out@).to_set().contains(p) <==> (
                        ((exists|i2: int| 0 <= i2 < i && p.0 == views(nodes@)[i2]) && readers(deps, p.0).contains(p.1))
                        || (p.0 == src && exists|t: int| 0 <= t < r && p.1 == views(ds@)[t])),
                decreases ds@.len() - r,
            {
                let ghost before = out@;
                let e = FormulaDependencyEdge { source: copy_addr(&nodes[i]), dependent: copy_addr(&ds[r]) };
                out.push(e);
                proof {
                    crate::address::lemma_addr_order();
                    let x = (src, av(ds@[r as int]));
                    assert(ev(e) == x);
                    assert(views(ds@).len() == ds@.len());
                    assert(views(ds@)[r as int] == av(ds@[r as int]));
                    assert(views(nodes@)[i as int] == av(nodes@[i as int]));
                    assert(edge_views(out@) =~= edge_views(before).push(x));
                    lemma_edge_push_to_set(edge_views(before), x);
                    assert forall|q: int| 0 <= q < before.len() implies edge_lt(#[trigger] edge_views(before)[q], x) by {
                        assert(addr_lt(edge_views(before)[q].0, src)
                            || (edge_views(before)[q].0 == src && exists|t: int| 0 <= t < r && edge_views(before)[q].1 == views(ds@)[t]));
                        if addr_lt(edge_views(before)[q].0, src) {
                        } else {
                            let t = choose|t: int| 0 <= t < r && edge_views(before)[q].1 == views(ds@)[t];
                            assert(strictly_sorted(views(ds@)));
                            assert(0 <= t < r < views(ds@).len());
                            assert(addr_lt(views(ds@)[t], views(ds@)[r as int]));
                        }
                    }
                    assert forall|a: int, b: int| 0 <= a < b < out@.len() implies edge_lt(
                        #[trigger] edge_views(out@)[a],
                        #[trigger] edge_views(out@)[b],
                    ) by {
                        if b < before.len() {
                            assert(edge_views(out@)[a] == edge_views(before)[a]);
                            assert(edge_views(out@)[b] == edge_views(before)[b]);
                        } else {
                            assert(edge_views(out@)[a] == edge_views(before)[a]);
                        }
                    }
                    assert forall|q: int| 0 <= q < out@.len() implies addr_lt(#[trigger] edge_views(out@)[q].0, src)
                        || (edge_views(out@)[q].0 == src && exists|t: int| 0 <= t < r + 1 && edge_views(out@)[q].1 == views(ds@)[t]) by {
                        if q < before.len() {
                            assert(edge_views(out@)[q] == edge_views(before)[q]);
                        } else {
                            assert(edge_views(out@)[q].1 == views(ds@)[r as int]);
                        }
                    }
                    assert forall|p: (Addr, Addr)| #[trigger] edge_views(out@).to_set().contains(p) <==> (
                        ((exists|i2: int| 0 <= i2 < i && p.0 == views(nodes@)[i2]) && readers(deps, p.0).contains(p.1))
                        || (p.0 == src && exists|t: int| 0 <= t < r + 1 && p.1 == views(ds@)[t])) by {
                        if p.0 == src && exists|t: int| 0 <= t < r + 1 && p.1 == views(ds@)[t] {
                            let t = choose|t: int| 0 <= t < r + 1 && p.1 == views(ds@)[t];
                            if t < r {
                                assert(exists|t2: int| 0 <= t2 < r && p.1 == views(ds@)[t2]);
                                assert(edge_views(before).to_set().contains(p));
                            } else {
                                assert(p == x);
                            }
                        }
                        if edge_views(out@).to_set().contains(p) {
                            if p != x {
                                assert(edge_views(before).to_set().contains(p));
                                if p.0 == src && exists|t: int| 0 <= t < r && p.1 == views(ds@)[t] {
                                    let t = choose|t: int| 0 <= t < r && p.1 == views(ds@)[t];
                                    assert(0 <= t < r + 1);
                                }
                            } else {
                                assert(0 <= r < r + 1 && p.1 == views(ds@)[r as int]);
                            }
                        }
                    }
                }
                r += 1;
            }
            proof {
                lemma_set_view_facts(ds@);
                if i + 1 < nodes@.len() {
                    crate::address::lemma_addr_order();
                    assert(views(nodes@)[i as int] == av(nodes@[i as int]));
                    assert(addr_lt(views(nodes@)[i as int], views(nodes@)[i + 1]));
                    assert forall|q: int| 0 <= q < out@.len() implies addr_lt(#[trigger] edge_views(out@)[q].0, views(nodes@)[i + 1]) by {
                        assert(addr_lt(edge_views(out@)[q].0, src) || edge_views(out@)[q].0 == src);
                    }
                }
                assert forall|p: (Addr, Addr)| #[trigger] edge_views(out@).to_set().contains(p) <==> (
                    (exists|i2: int| 0 <= i2 < i + 1 && p.0 == views(nodes@)[i2]) && readers(deps, p.0).contains(p.1)) by {
                    if (exists|i2: int| 0 <= i2 < i + 1 && p.0 == views(nodes@)[i2]) && readers(deps, p.0).contains(p.1) {
                        let i2 = choose|i2: int| 0 <= i2 < i + 1 && p.0 == views(nodes@)[i2];
                        if i2 == i {
                            assert(set_view(ds@).contains(p.1));
                            let t = choose|t: int| 0 <= t < ds@.len() && av(ds@[t]) == p.1;
                            assert(views(ds@)[t] == p.1);
                        } else {
                            assert(exists|i3: int| 0 <= i3 < i && p.0 == views(nodes@)[i3]);
                        }
                    }
                    if p.0 == src && exists|t: int| 0 <= t < ds@.len() && p.1 == views(ds@)[t] {
                        let t = choose|t: int| 0 <= t < ds@.len() && p.1 == views(ds@)[t];
                        assert(set_view(ds@).contains(av(ds@[t])));
                        assert(views(nodes@)[i as int] == src);
                    }
                }
            }
            i += 1;
        }
        proof {
            lemma_set_view_facts(nodes@);
            assert forall|p: (Addr, Addr)| edge_views(out@).to_set().contains(p) <==> edge_set(deps, set_view(nodes@)).contains(p) by {
                if set_view(nodes@).contains(p.0) {
                    let k = choose|k: int| 0 <= k < nodes@.len() && av(nodes@[k]) == p.0;
                    assert(views(nodes@)[k] == p.0);
                }
                if exists|i2: int| 0 <= i2 < nodes@.len() && p.0 == views(nodes@)[i2] {
                    let i2 = choose|i2: int| 0 <= i2 < nodes@.len() && p.0 == views(nodes@)[i2];
                    assert(av(nodes@[i2]) == p.0);
                }
            }
            assert(edge_views(out@).to_set() =~= edge_set(deps, set_view(nodes@)));
        }
        out
    }
}

proof fn lemma_edge_push_to_set(s: Seq<(Addr, Addr)>, x: (Addr, Addr))
    ensures
        s.push(x).to_set() == s.to_set().insert(x),
{
    assert forall|y: (Addr, Addr)| s.push(x).to_set().contains(y) <==> s.to_set().insert(x).contains(y) by {
        if s.push(x).to_set().contains(y) {
            let i = choose|i: int| 0 <= i < s.push(x).len() && s.push(x)[i] == y;
            if i < s.len() {
                assert(s[i] == y);
            }
        }
        if s.to_set().contains(y) {
            let i = choose|i: int| 0 <= i < s.len() && s[i] == y;
            assert(s.push(x)[i] == y);
        }
        if y == x {
            assert(s.push(x)[s.len() as int] == y);
        }
    }
    assert(s.push(x).to_set() =~= s.to_set().insert(x));
}

/// Sheet `i` is the first whose id is `id`.
pub open spec fn first_sheet_with(model: SpreadsheetModel, id: Seq<char>, i: int) -> bool {
    &&& 0 <= i < model.sheets@.len()
    &&& model.sheets@[i].id@ == id
    &&& forall|k: int| 0 <= k < i ==> (#[trigger] model.sheets@[k]).id@ != id
}

/// Cell `j` is the first cell of `sheet` at (`row`, `column`).
pub open spec fn first_cell_at(sheet: SheetModel, row: u32, column: u32, j: int) -> bool {
    &&& 0 <= j < sheet.cells@.len()
    &&& sheet.cells@[j].row == row
    &&& sheet.cells@[j].column == column
    &&& forall|k: int| 0 <= k < j ==> !((#[trigger] sheet.cells@[k]).row == row && sheet.cells@[k].column == column)
}

/// The formula the snapshot holds at `a`: that of the first cell at `a`'s
/// row and column in the first sheet with `a`'s sheet id.
pub open spec fn snapshot_formula(model: SpreadsheetModel, a: Addr) -> Option<Seq<char>> {
    if exists|i: int, j: int| first_sheet_with(model, a.0, i) && first_cell_at(model.sheets@[i], a.1, a.2, j) {
        let (i, j) = choose|i: int, j: int|
            first_sheet_with(model, a.0, i) && first_cell_at(model.sheets@[i], a.1, a.2, j);
        match model.sheets@[i].cells@[j].formula {
            Some(f) => Some(f@),
            None => None,
        }
    } else {
        None
    }
}

/// What the snapshot's formula at `a` reads, if there is one.
pub open spec fn snapshot_reads(model: SpreadsheetModel, lk: Map<Seq<char>, Seq<char>>, a: Addr) -> Option<Result<Set<Addr>, u64>> {
    match snapshot_formula(model, a) {
        Some(f) => Some(scan(f, 0, a.0, lk)),
        None => None,
    }
}

pub open spec fn reads_ok(r: Option<Result<Set<Addr>, u64>>) -> bool {
    r matches Some(Ok(_))
}

pub open spec fn reads_fail(r: Option<Result<Set<Addr>, u64>>) -> bool {
    r matches Some(Err(_))
}

/// `a` is the least cell of `c` whose formula reads an oversized range.
pub open spec fn least_failure(model: SpreadsheetModel, lk: Map<Seq<char>, Seq<char>>, c: Set<Addr>, a: Addr) -> bool {
    &&& c.contains(a)
    &&& reads_fail(snapshot_reads(model, lk, a))
    &&& forall|b: Addr| c.contains(b) && addr_lt(b, a) ==> !reads_fail(#[trigger] snapshot_reads(model, lk, b))
}

/// The cells of `c` below `a`.
pub open spec fn below(c: Set<Addr>, a: Addr) -> Set<Addr> {
    c.filter(|b: Addr| addr_lt(b, a))
}

/// `old` with the entries of the cells of `c` replaced: a cell of `c` keeps
/// an entry only when it is in `done` and the snapshot holds a formula there,
/// and the entry is what that formula reads.
pub open spec fn refreshed(
    old: Map<Addr, Set<Addr>>,
    c: Set<Addr>,
    done: Set<Addr>,
    model: SpreadsheetModel,
    lk: Map<Seq<char>, Seq<char>>,
) -> Map<Addr, Set<Addr>> {
    Map::new(
        |a: Addr|
            if c.contains(a) {
                done.contains(a) && reads_ok(snapshot_reads(model, lk, a))
            } else {
                old.contains_key(a)
            },
        |a: Addr|
            if c.contains(a) {
                scan_set(snapshot_reads(model, lk, a)->Some_0)
            } else {
                old[a]
            },
    )
}

proof fn lemma_snapshot_formula(model: SpreadsheetModel, a: Addr, i: int, j: int)
    requires
        first_sheet_with(model, a.0, i),
        first_cell_at(model.sheets@[i], a.1, a.2, j),
    ensures
        snapshot_formula(model, a) == match model.sheets@[i].cells@[j].formula {
            Some(f) => Some(f@),
            None => None::<Seq<char>>,
        },
{
    let (i2, j2) = choose|i2: int, j2: int|
        first_sheet_with(model, a.0, i2) && first_cell_at(model.sheets@[i2], a.1, a.2, j2);
    if i2 < i {
        assert(model.sheets@[i2].id@ != a.0);
    } else if i < i2 {
        assert(model.sheets@[i].id@ != a.0);
    }
    assert(i2 == i);
    if j2 < j {
        assert(!(model.sheets@[i].cells@[j2].row == a.1 && model.sheets@[i].cells@[j2].column == a.2));
    } else if j < j2 {
        assert(!(model.sheets@[i].cells@[j].row == a.1 && model.sheets@[i].cells@[j].column == a.2));
    }
}

/// Where the snapshot holds the cell `a`: the first sheet with its id and,
/// in it, the first cell at its row and column.
fn locate(model: &SpreadsheetModel, a: &CellAddress) -> (res: Option<(usize, usize)>)
    ensures
        match res {
            Some((i, j)) => first_sheet_with(*model, av(*a).0, i as int) && first_cell_at(
                model.sheets@[i as int],
                a.row,
                a.column,
                j as int,
            ),
            None => snapshot_formula(*model, av(*a)) is None,
        },
{
    let mut i: usize = 0;
    while i < model.sheets.len()
        invariant
            i <= model.sheets@.len(),
            forall|k: int| 0 <= k < i ==> (#[trigger] model.sheets@[k]).id@ != av(*a).0,
        decreases model.sheets@.len() - i,
    {
        if model.sheets[i].id == a.sheet_id {
            let sheet = &model.sheets[i];
            let mut j: usize = 0;
            while j < sheet.cells.len()
                invariant
                    i < model.sheets@.len(),
                    sheet == &model.sheets@[i as int],
                    model.sheets@[i as int].id@ == av(*a).0,
                    forall|k: int| 0 <= k < i ==> (#[trigger] model.sheets@[k]).id@ != av(*a).0,
                    j <= sheet.cells@.len(),
                    forall|k: int|
                        0 <= k < j ==> !((#[trigger] sheet.cells@[k]).row == a.row && sheet.cells@[k].column == a.column),
                decreases sheet.cells@.len() - j,
            {
                if sheet.cells[j].row == a.row && sheet.cells[j].column == a.column {
                    return Some((i, j));
                }
                j += 1;
            }
            proof {
                assert forall|i2: int, j2: int|
                    !(first_sheet_with(*model, av(*a).0, i2) && first_cell_at(model.sheets@[i2], a.row, a.column, j2)) by {
                    if first_sheet_with(*model, av(*a).0, i2) {
                        if i2 < i {
                        } else if i2 > i {
                            assert(model.sheets@[i as int].id@ != av(*a).0);
                        }
                    }
                }
            }
            return None;
        }
        i += 1;
    }
    None
}

proof fn lemma_inverse_remove(
    deps: Map<Addr, Set<Addr>>,
    old_rdeps: Map<Addr, Set<Addr>>,
    new_rdeps: Map<Addr, Set<Addr>>,
    f: Addr,
)
    requires
        inverse(deps, old_rdeps),
        deps.contains_key(f),
        forall|s: Addr|
            #[trigger] new_rdeps.contains_key(s) <==> (old_rdeps.contains_key(s) && !(deps[f].contains(s)
                && old_rdeps[s].remove(f).is_empty())),
        forall|s: Addr|
            #[trigger] new_rdeps.contains_key(s) ==> new_rdeps[s] == (if deps[f].contains(s) {
                old_rdeps[s].remove(f)
            } else {
                old_rdeps[s]
            }),
    ensures
        inverse(deps.remove(f), new_rdeps),
{
    let nd = deps.remove(f);
    assert forall|s: Addr| #[trigger] new_rdeps.contains_key(s) implies new_rdeps[s] == readers(nd, s)
        && !new_rdeps[s].is_empty() by {
        assert(old_rdeps[s] == readers(deps, s));
        if deps[f].contains(s) {
            assert(new_rdeps[s] =~= readers(nd, s));
        } else {
            assert(new_rdeps[s] =~= readers(nd, s));
        }
    }
    assert forall|s: Addr| !new_rdeps.contains_key(s) implies #[trigger] readers(nd, s).is_empty() by {
        if !old_rdeps.contains_key(s) {
            assert(readers(deps, s).is_empty());
            assert forall|x: Addr| !readers(nd, s).contains(x) by {
                assert(!readers(deps, s).contains(x));
            }
        } else {
            assert(old_rdeps[s] == readers(deps, s));
            assert(old_rdeps[s].remove(f).is_empty());
            assert forall|x: Addr| !readers(nd, s).contains(x) by {
                assert(!old_rdeps[s].remove(f).contains(x));
            }
        }
        assert(readers(nd, s) =~= Set::<Addr>::empty());
    }
}

/// Records that formula cell `f`, which read `refs`, reads them no more:
/// `f` leaves the readers of each, and a cell left without readers loses
/// its entry.
fn remove_reader_edges(rdeps: &mut Vec<Entry>, refs: &Vec<CellAddress>, f: &CellAddress)
    requires
        map_wf(old(rdeps)@),
        strictly_sorted(views(refs@)),
        forall|s: Addr| #[trigger] set_view(refs@).contains(s) ==> mv(old(rdeps)@).contains_key(s),
    ensures
        map_wf(final(rdeps)@),
        forall|s: Addr|
            #[trigger] mv(final(rdeps)@).contains_key(s) <==> (mv(old(rdeps)@).contains_key(s) && !(set_view(
                refs@,
            ).contains(s) && mv(old(rdeps)@)[s].remove(av(*f)).is_empty())),
        forall|s: Addr|
            #[trigger] mv(final(rdeps)@).contains_key(s) ==> mv(final(rdeps)@)[s] == (if set_view(refs@).contains(s) {
                mv(old(rdeps)@)[s].remove(av(*f))
            } else {
                mv(old(rdeps)@)[s]
            }),
{
    let ghost ord = mv(rdeps@);
    let ghost fa = av(*f);
    let mut k: usize = 0;
    while k < refs.len()
        invariant
            k <= refs@.len(),
            map_wf(rdeps@),
            strictly_sorted(views(refs@)),
            fa == av(*f),
            forall|s: Addr| #[trigger] set_view(refs@).contains(s) ==> ord.contains_key(s),
            forall|s: Addr|
                #[trigger] mv(rdeps@).contains_key(s) <==> (ord.contains_key(s) && !(set_view(
                    refs@.subrange(0, k as int),
                ).contains(s) && ord[s].remove(fa).is_empty())),
            forall|s: Addr|
                #[trigger] mv(rdeps@).contains_key(s) ==> mv(rdeps@)[s] == (if set_view(
                    refs@.subrange(0, k as int),
                ).contains(s) {
                    ord[s].remove(fa)
                } else {
                    ord[s]
                }),
        decreases refs@.len() - k,
    {
        let ghost before = mv(rdeps@);
        map_remove_member(rdeps, &refs[k], f);
        proof {
            let s0 = av(refs@[k as int]);
            let pre = refs@.subrange(0, k as int);
            let post = refs@.subrange(0, k + 1);
            assert(post == pre.push(refs@[k as int]));
            crate::addr_set::lemma_set_view_push(pre, refs@[k as int]);
            lemma_set_view_facts(refs@);
            lemma_set_view_facts(pre);
            crate::address::lemma_addr_order();
            assert(set_view(refs@).contains(s0));
            assert(!set_view(pre).contains(s0)) by {
                if set_view(pre).contains(s0) {
                    let q = choose|q: int| 0 <= q < pre.len() && av(pre[q]) == s0;
                    assert(views(refs@)[q] == s0 && views(refs@)[k as int] == s0);
                }
            }
            assert(before.contains_key(s0));
            assert(before[s0] == ord[s0]);
            let rest = before[s0].remove(fa);
            assert(set_view(post).contains(s0));
            assert forall|s: Addr| #[trigger] mv(rdeps@).contains_key(s) <==> (ord.contains_key(s)
                && !(set_view(post).contains(s) && ord[s].remove(fa).is_empty())) by {
                if s != s0 {
                    assert(mv(rdeps@).contains_key(s) == before.contains_key(s));
                    assert(set_view(post).contains(s) == set_view(pre).contains(s));
                } else if rest.is_empty() {
                    assert(!mv(rdeps@).contains_key(s));
                } else {
                    assert(mv(rdeps@).contains_key(s));
                }
            }
            assert forall|s: Addr| #[trigger] mv(rdeps@).contains_key(s) implies mv(rdeps@)[s]
                == (if set_view(post).contains(s) { ord[s].remove(fa) } else { ord[s] }) by {
                if s != s0 {
                    assert(mv(rdeps@)[s] == before[s]);
                    assert(set_view(post).contains(s) == set_view(pre).contains(s));
                } else {
                    assert(mv(rdeps@)[s] == rest);
                }
            }
        }
        k += 1;
    }
    proof {
        assert(refs@.subrange(0, refs@.len() as int) =~= refs@);
    }
}

impl FormulaDependencyIndex {
    /// Records that formula cell `f`, which has no entry yet, reads `refs`.
    fn link(&mut self, f: &CellAddress, refs: Vec<CellAddress>)
        requires
            old(self).wf(),
            !old(self).deps().contains_key(av(*f)),
            strictly_sorted(views(refs@)),
        ensures
            final(self).wf(),
            final(self).deps() == old(self).deps().insert(av(*f), set_view(refs@)),
    {
        let ghost od = self.deps();
        let ghost ord = self.rdeps();
        add_reader_edges(&mut self.dependents, &refs, f);
        let ghost rs = set_view(refs@);
        map_insert(&mut self.dependencies, copy_addr(f), refs);
        proof {
            lemma_inverse_insert(od, ord, mv(self.dependents@), av(*f), rs);
        }
    }

    /// Forgets the formula of cell `f` and the edges it brought.
    fn unlink(&mut self, f: &CellAddress)
        requires
            old(self).wf(),
        ensures
            final(self).wf(),
            final(self).deps() == old(self).deps().remove(av(*f)),
    {
        proof {
            lemma_mv(self.dependencies@);
        }
        match map_find(&self.dependencies, f) {
            None => {
                proof {
                    assert(self.deps().remove(av(*f)) =~= self.deps());
                }
            },
            Some(i) => {
                let refs = Self::members_of(&self.dependencies, i);
                let ghost od = self.deps();
                let ghost ord = self.rdeps();
                let ghost fa = av(*f);
                proof {
                    assert(od[fa] == set_view(refs@));
                    lemma_set_view_facts(refs@);
                    assert forall|s: Addr| #[trigger] set_view(refs@).contains(s) implies ord.contains_key(s) by {
                        assert(readers(od, s).contains(fa));
                        assert(!readers(od, s).is_empty());
                    }
                }
                remove_reader_edges(&mut self.dependents, &refs, f);
                let ghost nrd = mv(self.dependents@);
                map_remove(&mut self.dependencies, f);
                proof {
                    lemma_inverse_remove(od, ord, nrd, fa);
                }
            },
        }
    }
}

/// What `update` leaves behind, for a snapshot whose sheet names resolve
/// through `lk`: when some changed cell reads an oversized range, the error
/// for the least such cell, with the cells below it already re-read;
/// otherwise every changed cell re-read and the topology the change reaches.
pub open spec fn update_outcome(
    old: Map<Addr, Set<Addr>>,
    new: Map<Addr, Set<Addr>>,
    model: SpreadsheetModel,
    lk: Map<Seq<char>, Seq<char>>,
    c: Set<Addr>,
    res: Result<FormulaDependencySubgraph, FormulaDependencyError>,
) -> bool {
    if exists|a: Addr| c.contains(a) && reads_fail(#[trigger] snapshot_reads(model, lk, a)) {
        match res {
            Err(FormulaDependencyError::RangeTooLarge(n)) => exists|a: Addr|
                #[trigger] least_failure(model, lk, c, a) && snapshot_reads(model, lk, a) == Some(
                    Err::<Set<Addr>, u64>(n),
                ) && new == refreshed(old, c, below(c, a), model, lk),
            _ => false,
        }
    } else {
        match res {
            Ok(sub) => new == refreshed(old, c, c, model, lk) && describes_affected(new, c, sub),
            Err(_) => false,
        }
    }
}

impl FormulaDependencyIndex {
    /// Re-reads from `model` the formulas of the changed cells only,
    /// replacing their edges, and returns the changed cells with the
    /// reverse-dependent closure that needs recalculation.
    #[verifier::rlimit(50)]
    pub fn update(&mut self, model: &SpreadsheetModel, changed: &[CellAddress]) -> (res: Result<
        FormulaDependencySubgraph,
        FormulaDependencyError,
    >)
        requires
            old(self).wf(),
        ensures
            final(self).wf(),
            match spec_lookup(model.sheets@) {
                Err(k) => (res matches Err(e) && e matches FormulaDependencyError::AmbiguousSheetName(s) && s@ == k)
                    && final(self).deps() == old(self).deps(),
                Ok(lk) => update_outcome(old(self).deps(), final(self).deps(), *model, lk, set_view(changed@), res),
            },
    {
        let lookup = match build_sheet_lookup(model) {
            Ok(l) => l,
            Err(e) => {
                return Err(e);
            },
        };
        let ghost lk = lookup.view();
        let ghost od = self.deps();
        let ghost c = set_view(changed@);
        let mut cs: Vec<CellAddress> = Vec::new();
        let mut k: usize = 0;
        proof {
            assert(set_view(cs@) =~= set_view(changed@.subrange(0, 0)));
        }
        while k < changed.len()
            invariant
                k <= changed@.len(),
                strictly_sorted(views(cs@)),
                set_view(cs@) == set_view(changed@.subrange(0, k as int)),
            decreases changed@.len() - k,
        {
            sorted_insert(&mut cs, copy_addr(&changed[k]));
            proof {
                let pre = changed@.subrange(0, k as int);
                let post = changed@.subrange(0, k + 1);
                assert(post == pre.push(changed@[k as int]));
                lemma_set_view_push(pre, changed@[k as int]);
            }
            k += 1;
        }
        proof {
            assert(changed@.subrange(0, changed@.len() as int) =~= changed@);
            assert(set_view(cs@.subrange(0, 0)) =~= Set::<Addr>::empty());
            assert(od.remove_keys(Set::<Addr>::empty()) =~= od);
        }
        let mut t: usize = 0;
        while t < cs.len()
            invariant
                self.wf(),
                t <= cs@.len(),
                strictly_sorted(views(cs@)),
                set_view(cs@) == c,
                c == set_view(changed@),
                od == old(self).deps(),
                self.deps() == od.remove_keys(set_view(cs@.subrange(0, t as int))),
            decreases cs@.len() - t,
        {
            self.unlink(&cs[t]);
            proof {
                let pre = cs@.subrange(0, t as int);
                let post = cs@.subrange(0, t + 1);
                assert(post == pre.push(cs@[t as int]));
                lemma_set_view_push(pre, cs@[t as int]);
                assert(od.remove_keys(set_view(pre)).remove(av(cs@[t as int])) =~= od.remove_keys(set_view(post)));
            }
            t += 1;
        }
        proof {
            assert(cs@.subrange(0, cs@.len() as int) =~= cs@);
            assert(set_view(cs@.subrange(0, 0)) =~= Set::<Addr>::empty());
            assert(od.remove_keys(c) =~= refreshed(od, c, Set::<Addr>::empty(), *model, lk));
        }
        let mut t: usize = 0;
        while t < cs.len()
            invariant
                self.wf(),
                lookup.keys_unique(),
                lookup.view() == lk,
                spec_lookup(model.sheets@) == Ok::<Map<Seq<char>, Seq<char>>, Seq<char>>(lk),
                od == old(self).deps(),
                c == set_view(changed@),
                t <= cs@.len(),
                strictly_sorted(views(cs@)),
                set_view(cs@) == c,
                self.deps() == refreshed(od, c, set_view(cs@.subrange(0, t as int)), *model, lk),
                forall|q: int| 0 <= q < t ==> !reads_fail(snapshot_reads(*model, lk, #[trigger] views(cs@)[q])),
            decreases cs@.len() - t,
        {
            let a = &cs[t];
            let ghost x = av(*a);
            let ghost pre = cs@.subrange(0, t as int);
            let ghost post = cs@.subrange(0, t + 1);
            proof {
                assert(post == pre.push(cs@[t as int]));
                lemma_set_view_push(pre, cs@[t as int]);
                assert(views(cs@)[t as int] == x);
                lemma_set_view_facts(pre);
                lemma_set_view_facts(cs@);
                crate::address::lemma_addr_order();
                assert(!set_view(pre).contains(x)) by {
                    if set_view(pre).contains(x) {
                        let q = choose|q: int| 0 <= q < pre.len() && av(pre[q]) == x;
                        assert(views(cs@)[q] == x);
                    }
                }
                assert(c.contains(x));
            }
            match locate(model, a) {
                None => {
                    proof {
                        assert(refreshed(od, c, set_view(pre), *model, lk) =~= refreshed(od, c, set_view(post), *model, lk));
                    }
                },
                Some((i, j)) => {
                    proof {
                        lemma_snapshot_formula(*model, x, i as int, j as int);
                    }
                    match &model.sheets[i].cells[j].formula {
                        None => {
                            proof {
                                assert(refreshed(od, c, set_view(pre), *model, lk) =~= refreshed(od, c, set_view(post), *model, lk));
                            }
                        },
                        Some(f) => {
                            match parse_references(f.as_str(), a.sheet_id.as_str(), &lookup) {
                                Ok(refs) => {
                                    proof {
                                        assert(!self.deps().contains_key(x));
                                    }
                                    self.link(a, refs);
                                    proof {
                                        assert(self.deps() =~= refreshed(od, c, set_view(post), *model, lk));
                                    }
                                },
                                Err(e) => {
                                    proof {
                                        assert(reads_fail(snapshot_reads(*model, lk, x)));
                                        assert forall|b: Addr| c.contains(b) && addr_lt(b, x) implies !reads_fail(
                                            #[trigger] snapshot_reads(*model, lk, b),
                                        ) by {
                                            let q = choose|q: int| 0 <= q < cs@.len() && av(cs@[q]) == b;
                                            assert(views(cs@)[q] == b);
                                            if q >= t {
                                                if q > t {
                                                    assert(addr_lt(views(cs@)[t as int], views(cs@)[q]));
                                                }
                                            }
                                        }
                                        assert(least_failure(*model, lk, c, x));
                                        assert forall|b: Addr| set_view(pre).contains(b) <==> below(c, x).contains(b) by {
                                            if set_view(pre).contains(b) {
                                                let q = choose|q: int| 0 <= q < pre.len() && av(pre[q]) == b;
                                                assert(views(cs@)[q] == b);
                                                assert(addr_lt(views(cs@)[q], views(cs@)[t as int]));
                                            }
                                            if below(c, x).contains(b) {
                                                let q = choose|q: int| 0 <= q < cs@.len() && av(cs@[q]) == b;
                                                assert(views(cs@)[q] == b);
                                                if q >= t {
                                                    if q > t {
                                                        assert(addr_lt(views(cs@)[t as int], views(cs@)[q]));
                                                    }
                                                }
                                                assert(av(pre[q]) == b);
                                            }
                                        }
                                        assert(set_view(pre) =~= below(c, x));
                                    }
                                    return Err(e);
                                },
                            }
                        },
                    }
                },
            }
            t += 1;
        }
        proof {
            assert(cs@.subrange(0, cs@.len() as int) =~= cs@);
            lemma_set_view_facts(cs@);
            assert forall|a: Addr| c.contains(a) implies !reads_fail(#[trigger] snapshot_reads(*model, lk, a)) by {
                let q = choose|q: int| 0 <= q < cs@.len() && av(cs@[q]) == a;
                assert(views(cs@)[q] == a);
            }
        }
        Ok(self.affected_topology(changed))
    }
}

impl FormulaDependencyIndex {
    /// The strongly connected parts of the dependency graph that hold a
    /// cycle, in the order Tarjan's search closes them, each in address
    /// order; every cell on a cycle is in one of them.
    pub fn cycles(&self) -> (res: Vec<Vec<CellAddress>>)
        requires
            self.wf(),
        ensures
            cycle_parts(self.deps(), res@),
            covers_cycles(self.deps(), res@),
    {
        let ghost deps = self.deps();
        let parts = self.certified_components();
        let mut covered: Vec<CellAddress> = Vec::new();
        let mut k: usize = 0;
        proof {
            assert(set_view(covered@) =~= Set::<Addr>::empty());
        }
        while k < parts.len()
            invariant
                deps == self.deps(),
                cycle_parts(deps, parts@),
                k <= parts@.len(),
                strictly_sorted(views(covered@)),
                forall|x: Addr| #[trigger] set_view(covered@).contains(x) <==> exists|t: int| 0 <= t < k && set_view(parts@[t]@).contains(x),
                scc_closed(deps, set_view(covered@)),
            decreases parts@.len() - k,
        {
            let ghost before = set_view(covered@);
            proof {
                assert(cycle_listing(deps, parts@[k as int]@));
            }
            covered = merge_sorted(&covered, &parts[k]);
            proof {
                assert(set_view(parts@[k as int]@) == scc_of(deps, av(parts@[k as int]@[0])));
                lemma_scc_closed_union(deps, before, av(parts@[k as int]@[0]));
                assert forall|x: Addr| #[trigger] set_view(covered@).contains(x) <==> exists|t: int| 0 <= t < k + 1 && set_view(parts@[t]@).contains(x) by {
                    if exists|t: int| 0 <= t < k + 1 && set_view(parts@[t]@).contains(x) {
                        let t = choose|t: int| 0 <= t < k + 1 && set_view(parts@[t]@).contains(x);
                        if t < k {
                            assert(before.contains(x));
                        }
                    }
                    if before.contains(x) {
                        let t = choose|t: int| 0 <= t < k && set_view(parts@[t]@).contains(x);
                        assert(0 <= t < k + 1);
                    }
                }
            }
            k += 1;
        }
        if self.all_cycles_within(&covered) {
            proof {
                assert forall|x: Addr| #[trigger] on_cycle(deps, x) implies exists|t: int| 0 <= t < parts@.len() && set_view(parts@[t]@).contains(x) by {
                    assert(set_view(covered@).contains(x));
                }
            }
            parts
        } else {
            self.components_by_closure()
        }
    }

    /// Whether the formula cells outside `covered` have an evaluation
    /// order, which holds exactly when every cell on a cycle is inside
    /// `covered`.
    fn all_cycles_within(&self, covered: &Vec<CellAddress>) -> (res: bool)
        requires
            self.wf(),
            scc_closed(self.deps(), set_view(covered@)),
        ensures
            res == forall|x: Addr| #[trigger] on_cycle(self.deps(), x) ==> set_view(covered@).contains(x),
    {
        let ghost deps = self.deps();
        let formulas = self.formula_cells();
        let rest = filter_sorted(&formulas, covered, false);
        let edges = self.edges_from(&rest);
        let inner = edges_into(&edges, &rest);
        let ghost n = set_view(rest@);
        proof {
            assert(n =~= deps.dom().difference(set_view(covered@)));
            assert(edge_views(inner@).to_set() =~= inner_edges(deps, n));
        }
        match topological_order(&rest, &inner) {
            Some(o) => {
                proof {
                    lemma_outside_order_covers(deps, set_view(covered@), views(o@));
                }
                true
            },
            None => {
                proof {
                    if forall|x: Addr| #[trigger] on_cycle(deps, x) ==> set_view(covered@).contains(x) {
                        self.lemma_finite_graph();
                        assert(n.subset_of(deps.dom()));
                        assert(deps.dom().subset_of(graph_cells(deps)));
                        vstd::set_lib::lemma_len_subset(deps.dom(), graph_cells(deps));
                        vstd::set_lib::lemma_len_subset(n, deps.dom());
                        assert forall|x: Addr| n.contains(x) implies !#[trigger] on_cycle(deps, x) by {}
                        crate::cyclic::lemma_order_exists(deps, n);
                        let o = choose|o: Seq<Addr>| is_topo_order(o, n, edge_set(deps, n));
                        assert forall|i: int, j: int|
                            0 <= i < o.len() && 0 <= j < o.len() && #[trigger] inner_edges(deps, n).contains((o[i], o[j])) implies i < j by {
                            assert(edge_set(deps, n).contains((o[i], o[j])));
                        }
                        assert(is_topo_order(o, n, inner_edges(deps, n)));
                        assert(is_topo_order(o, set_view(rest@), edge_views(inner@).to_set()));
                    }
                }
                false
            },
        }
    }

    /// The cyclic parts found from each formula cell's closures, in the
    /// address order of the first cell of each part met.
    #[verifier::rlimit(50)]
    fn components_by_closure(&self) -> (res: Vec<Vec<CellAddress>>)
        requires
            self.wf(),
        ensures
            cycle_parts(self.deps(), res@),
            covers_cycles(self.deps(), res@),
    {
        let ghost deps = self.deps();
        let formulas = self.formula_cells();
        let mut out: Vec<Vec<CellAddress>> = Vec::new();
        let mut covered: Vec<CellAddress> = Vec::new();
        let mut k: usize = 0;
        proof {
            assert(set_view(covered@) =~= Set::<Addr>::empty());
        }
        while k < formulas.len()
            invariant
                self.wf(),
                deps == self.deps(),
                lists(formulas@, deps.dom()),
                k <= formulas@.len(),
                cycle_parts(deps, out@),
                strictly_sorted(views(covered@)),
                forall|x: Addr| #[trigger] set_view(covered@).contains(x) <==> exists|t: int| 0 <= t < out@.len() && set_view(out@[t]@).contains(x),
                scc_closed(deps, set_view(covered@)),
                forall|m: int| 0 <= m < k && #[trigger] on_cycle(deps, av(formulas@[m])) ==> set_view(covered@).contains(av(formulas@[m])),
            decreases formulas@.len() - k,
        {
            let x = &formulas[k];
            let ghost a = av(*x);
            proof {
                lemma_set_view_facts(formulas@);
                assert(deps.dom().contains(a));
            }
            if !sorted_contains(&covered, x) {
                let root = copy_addr(x);
                let fwd = self.forward_closure(&root);
                let seed = vec![copy_addr(x)];
                proof {
                    lemma_set_view_facts(seed@);
                    assert forall|b: Addr| set_view(seed@).contains(b) <==> set![a].contains(b) by {
                        if b == a {
                            assert(av(seed@[0]) == b);
                        }
                    }
                    assert(set_view(seed@) =~= set![a]);
                }
                let bwd = self.reverse_closure(seed.as_slice());
                let comp = filter_sorted(&fwd, &bwd, true);
                let self_loop = reads_itself(&self.dependencies, x);
                proof {
                    lemma_forward_closure_reaches(deps, a, set_view(fwd@));
                    lemma_reverse_closure_reaches(deps, a, set_view(bwd@));
                    assert(set_view(comp@) =~= scc_of(deps, a));
                    lemma_reaches_refl(deps, a);
                    assert(set_view(comp@).contains(a));
                    lemma_set_view_facts(comp@);
                }
                if comp.len() > 1 || self_loop {
                    let ghost before = set_view(covered@);
                    let ghost old_out = out@;
                    proof {
                        lemma_new_part(deps, comp@, a, before);
                    }
                    covered = merge_sorted(&covered, &comp);
                    out.push(comp);
                    proof {
                        let c = out@[out@.len() - 1]@;
                        lemma_scc_closed_union(deps, before, a);
                        assert(set_view(c) == scc_of(deps, a));
                        assert forall|t1: int, t2: int| 0 <= t1 < t2 < out@.len() implies set_view(#[trigger] out@[t1]@).disjoint(
                            set_view(#[trigger] out@[t2]@)) by {
                            if t2 == out@.len() - 1 {
                                assert(out@[t1] == old_out[t1]);
                                assert forall|z: Addr| set_view(out@[t1]@).contains(z) implies !set_view(c).contains(z) by {
                                    assert(before.contains(z));
                                }
                            } else {
                                assert(out@[t1] == old_out[t1]);
                                assert(out@[t2] == old_out[t2]);
                            }
                        }
                        assert forall|t: int| 0 <= t < out@.len() implies #[trigger] cycle_listing(deps, out@[t]@) by {
                            if t < old_out.len() {
                                assert(out@[t] == old_out[t]);
                            }
                        }
                        assert forall|t: int| 0 <= t < out@.len() implies set_view(#[trigger] out@[t]@) == scc_of(deps, av(out@[t]@[0])) by {
                            if t < old_out.len() {
                                assert(out@[t] == old_out[t]);
                            }
                        }
                        assert forall|y: Addr| #[trigger] set_view(covered@).contains(y) <==> exists|t: int| 0 <= t < out@.len() && set_view(out@[t]@).contains(y) by {
                            if exists|t: int| 0 <= t < out@.len() && set_view(out@[t]@).contains(y) {
                                let t = choose|t: int| 0 <= t < out@.len() && set_view(out@[t]@).contains(y);
                                if t < old_out.len() {
                                    assert(out@[t] == old_out[t]);
                                    assert(before.contains(y));
                                }
                            }
                            if before.contains(y) {
                                let t = choose|t: int| 0 <= t < old_out.len() && set_view(old_out[t]@).contains(y);
                                assert(out@[t] == old_out[t]);
                            }
                            if set_view(c).contains(y) {
                                assert(0 <= out@.len() - 1 < out@.len());
                            }
                        }
                    }
                } else {
                    proof {
                        if on_cycle(deps, a) {
                            if !(deps.contains_key(a) && deps[a].contains(a)) {
                                let y = choose|y: Addr| y != a && #[trigger] reaches(deps, a, y) && reaches(deps, y, a);
                                assert(set_view(comp@).contains(y));
                                let i1 = choose|i: int| 0 <= i < comp@.len() && av(comp@[i]) == y;
                                let i2 = choose|i: int| 0 <= i < comp@.len() && av(comp@[i]) == a;
                                assert(i1 != i2);
                            }
                        }
                    }
                }
            }
            k += 1;
        }
        proof {
            assert forall|x: Addr| #[trigger] on_cycle(deps, x) implies exists|t: int| 0 <= t < out@.len() && set_view(out@[t]@).contains(x) by {
                lemma_on_cycle_formula(deps, x);
                lemma_set_view_facts(formulas@);
                assert(set_view(formulas@).contains(x));
                let m = choose|m: int| 0 <= m < formulas@.len() && av(formulas@[m]) == x;
                assert(on_cycle(deps, av(formulas@[m])));
                assert(set_view(covered@).contains(x));
            }
        }
        out
    }

    /// The parts Tarjan's search lists, in the order it closes them, each
    /// kept once it is checked against the cells its first cell reaches and
    /// the cells that reach it.
    #[verifier::rlimit(50)]
    fn certified_components(&self) -> (res: Vec<Vec<CellAddress>>)
        requires
            self.wf(),
        ensures
            cycle_parts(self.deps(), res@),
    {
        let ghost deps = self.deps();
        let comps = cycle_components(&self.dependencies);
        let mut out: Vec<Vec<CellAddress>> = Vec::new();
        let ghost mut idx: Seq<int> = Seq::empty();
        let mut k: usize = 0;
        while k < comps.len()
            invariant
                self.wf(),
                deps == self.deps(),
                k <= comps@.len(),
                forall|j: int| 0 <= j < comps@.len() ==> #[trigger] cycle_listing(deps, comps@[j]@),
                forall|j1: int, j2: int|
                    0 <= j1 < j2 < comps@.len() ==> set_view(#[trigger] comps@[j1]@).disjoint(set_view(#[trigger] comps@[j2]@)),
                idx.len() == out@.len(),
                forall|t: int| 0 <= t < out@.len() ==> 0 <= #[trigger] idx[t] < k && views(out@[t]@) == views(comps@[idx[t]]@),
                forall|t1: int, t2: int| 0 <= t1 < t2 < out@.len() ==> #[trigger] idx[t1] < #[trigger] idx[t2],
                forall|t: int| 0 <= t < out@.len() ==> set_view(#[trigger] out@[t]@) == scc_of(deps, av(out@[t]@[0])),
            decreases comps@.len() - k,
        {
            let comp = &comps[k];
            proof {
                assert(cycle_listing(deps, comps@[k as int]@));
            }
            let root = copy_addr(&comp[0]);
            let fwd = self.forward_closure(&root);
            let seed = vec![copy_addr(&comp[0])];
            proof {
                let r = av(root);
                lemma_set_view_facts(seed@);
                assert forall|a: Addr| set_view(seed@).contains(a) <==> set![r].contains(a) by {
                    if a == r {
                        assert(av(seed@[0]) == a);
                    }
                }
                assert(set_view(seed@) =~= set![r]);
            }
            let bwd = self.reverse_closure(seed.as_slice());
            if is_component(comp, &fwd, &bwd) {
                let kept = copy_list(comp);
                proof {
                    let r = av(root);
                    lemma_forward_closure_reaches(deps, r, set_view(fwd@));
                    lemma_reverse_closure_reaches(deps, r, set_view(bwd@));
                    assert(set_view(comp@) =~= scc_of(deps, r));
                    assert(views(kept@)[0] == views(comp@)[0]);
                }
                out.push(kept);
                proof {
                    idx = idx.push(k as int);
                }
            }
            k += 1;
        }
        proof {
            assert forall|t: int| 0 <= t < out@.len() implies #[trigger] cycle_listing(deps, out@[t]@) by {
                assert(cycle_listing(deps, comps@[idx[t]]@));
                assert(views(out@[t]@) == views(comps@[idx[t]]@));
                assert(out@[t]@.len() == views(out@[t]@).len());
                assert(views(out@[t]@)[0] == av(out@[t]@[0]));
            }
            assert forall|t1: int, t2: int| 0 <= t1 < t2 < out@.len() implies set_view(#[trigger] out@[t1]@).disjoint(
                set_view(#[trigger] out@[t2]@)) by {
                assert(idx[t1] < idx[t2]);
                assert(set_view(comps@[idx[t1]]@).disjoint(set_view(comps@[idx[t2]]@)));
            }
        }
        out
    }

    /// Whether some formula depends on itself, directly or through other
    /// formulas: exactly when the formula cells have no evaluation order.
    pub fn has_cycle(&self) -> (res: bool)
        requires
            self.wf(),
        ensures
            res == !exists|o: Seq<Addr>| is_topo_order(o, self.deps().dom(), edge_set(self.deps(), self.deps().dom())),
            res == exists|x: Addr| on_cycle(self.deps(), x),
    {
        let cells = self.formula_cells();
        let sub = self.affected_topology(cells.as_slice());
        proof {
            let deps = self.deps();
            let n = set_view(sub.nodes@);
            assert(set_view(cells@) == deps.dom());
            assert(closed(deps, deps.dom()));
            assert(n.subset_of(deps.dom()));
            assert(n =~= deps.dom());
            self.lemma_finite_graph();
            crate::cyclic::lemma_order_iff_no_cycle(deps);
        }
        sub.cyclic
    }
}

/// `cycles` lists some part exactly when some cell lies on a cycle, which
/// is what `has_cycle` reports.
pub proof fn law_cycles_listed_iff_cyclic(deps: Map<Addr, Set<Addr>>, parts: Seq<Vec<CellAddress>>)
    requires
        cycle_parts(deps, parts),
        covers_cycles(deps, parts),
    ensures
        (parts.len() > 0) == exists|x: Addr| on_cycle(deps, x),
{
    if parts.len() > 0 {
        let l = parts[0]@;
        assert(cycle_listing(deps, l));
        let r = av(l[0]);
        lemma_set_view_facts(l);
        if l.len() > 1 {
            let y = av(l[1]);
            assert(set_view(l).contains(y));
            assert(views(l)[0] == r && views(l)[1] == y);
            assert(crate::address::addr_lt(r, y));
            crate::address::lemma_addr_order();
            assert(scc_of(deps, r).contains(y));
            assert(on_cycle(deps, r));
        } else {
            assert(on_cycle(deps, r));
        }
    } else {
        if exists|x: Addr| on_cycle(deps, x) {
            let x = choose|x: Addr| on_cycle(deps, x);
            assert(covers_cycles(deps, parts));
        }
    }
}

/// No two sheets share an id.
pub open spec fn sheet_ids_distinct(model: SpreadsheetModel) -> bool {
    forall|i1: int, i2: int|
        0 <= i1 < model.sheets@.len() && 0 <= i2 < model.sheets@.len() && i1 != i2 ==> (#[trigger] model.sheets@[i1]).id@
            != (#[trigger] model.sheets@[i2]).id@
}

/// The snapshots `from_model` accepts: distinct sheet ids, one cell per
/// position, and formulas it can index.
pub open spec fn snapshot_indexable(model: SpreadsheetModel) -> bool {
    sheet_ids_distinct(model) && cells_distinct(model) && indexable(model)
}

/// No sheet holds two cells at the same row and column.
pub open spec fn cells_distinct(model: SpreadsheetModel) -> bool {
    forall|i: int, j1: int, j2: int|
        0 <= i < model.sheets@.len() && 0 <= j1 < model.sheets@[i].cells@.len() && 0 <= j2
            < model.sheets@[i].cells@.len() && j1 != j2 ==> !((#[trigger] model.sheets@[i].cells@[j1]).row
            == (#[trigger] model.sheets@[i].cells@[j2]).row && model.sheets@[i].cells@[j1].column
            == model.sheets@[i].cells@[j2].column)
}

/// In a snapshot with distinct sheet ids and cells, the cell at a position
/// is the one the snapshot holds at its address.
proof fn lemma_snapshot_at(model: SpreadsheetModel, i: int, j: int)
    requires
        sheet_ids_distinct(model),
        cells_distinct(model),
        0 <= i < model.sheets@.len(),
        0 <= j < model.sheets@[i].cells@.len(),
    ensures
        snapshot_formula(model, pos_addr(model, i, j)) == match model.sheets@[i].cells@[j].formula {
            Some(f) => Some(f@),
            None => None::<Seq<char>>,
        },
{
    let a = pos_addr(model, i, j);
    assert forall|k: int| 0 <= k < i implies (#[trigger] model.sheets@[k]).id@ != a.0 by {
        assert(model.sheets@[k].id@ != model.sheets@[i].id@);
    }
    assert(first_sheet_with(model, a.0, i));
    let sheet = model.sheets@[i];
    assert forall|k: int| 0 <= k < j implies !((#[trigger] sheet.cells@[k]).row == a.1 && sheet.cells@[k].column == a.2) by {
        assert(!(model.sheets@[i].cells@[k].row == model.sheets@[i].cells@[j].row
            && model.sheets@[i].cells@[k].column == model.sheets@[i].cells@[j].column));
    }
    assert(first_cell_at(sheet, a.1, a.2, j));
    lemma_snapshot_formula(model, a, i, j);
}

/// Updating an index with the changed cells of a new snapshot that
/// `from_model` accepts gives the index a rebuild from that snapshot gives,
/// when every other cell reads as it did: the update then succeeds and the
/// entries agree cell for cell.
pub proof fn law_update_matches_rebuild(
    old: Map<Addr, Set<Addr>>,
    model: SpreadsheetModel,
    lk: Map<Seq<char>, Seq<char>>,
    c: Set<Addr>,
)
    requires
        spec_lookup(model.sheets@) == Ok::<Map<Seq<char>, Seq<char>>, Seq<char>>(lk),
        snapshot_indexable(model),
        forall|a: Addr|
            !c.contains(a) ==> (#[trigger] old.contains_key(a) <==> formula_map(model, lk).contains_key(a)),
        forall|a: Addr|
            !c.contains(a) && #[trigger] old.contains_key(a) ==> old[a] == formula_map(model, lk)[a],
    ensures
        forall|a: Addr| c.contains(a) ==> !reads_fail(#[trigger] snapshot_reads(model, lk, a)),
        refreshed(old, c, c, model, lk) == formula_map(model, lk),
{
    let fm = formula_map(model, lk);
    let n = model.sheets@.len() as int;
    assert forall|a: Addr| c.contains(a) implies (fm.contains_key(a) <==> reads_ok(snapshot_reads(model, lk, a)))
        && !reads_fail(#[trigger] snapshot_reads(model, lk, a))
        && (fm.contains_key(a) ==> fm[a] == scan_set(snapshot_reads(model, lk, a)->Some_0)) by {
        if fm.contains_key(a) {
            let (i, j) = choose|i: int, j: int| formula_at(model, i, j) && pos_addr(model, i, j) == a;
            lemma_snapshot_at(model, i, j);
            assert(precedes(i, j, n, 0));
            assert(pos_scan(model, lk, i, j) is Ok);
        } else if snapshot_formula(model, a) is Some {
            let (i, j) = choose|i: int, j: int|
                first_sheet_with(model, a.0, i) && first_cell_at(model.sheets@[i], a.1, a.2, j);
            lemma_snapshot_at(model, i, j);
            assert(pos_addr(model, i, j) == a);
            assert(formula_at(model, i, j));
        }
    }
    assert(refreshed(old, c, c, model, lk) =~= fm);
}

/// What formula cell `q` reads; nothing for a cell without formula.
pub open spec fn reads_of(deps: Map<Addr, Set<Addr>>, q: Addr) -> Set<Addr> {
    if deps.contains_key(q) {
        deps[q]
    } else {
        Set::empty()
    }
}

impl FormulaDependencyIndex {
    /// `start` and every cell it reaches through what formulas read, in
    /// address order.
    #[verifier::rlimit(50)]
    pub fn forward_closure(&self, start: &CellAddress) -> (res: Vec<CellAddress>)
        requires
            self.wf(),
        ensures
            strictly_sorted(views(res@)),
            is_forward_closure(self.deps(), set![av(*start)], set_view(res@)),
    {
        let ghost deps = self.deps();
        let ghost c = set![av(*start)];
        let cells = crate::scc::graph_nodes(&self.dependencies);
        let ghost one = seq![av(*start)];
        let mut nodes: Vec<CellAddress> = Vec::new();
        let mut queue: Vec<CellAddress> = Vec::new();
        nodes.push(copy_addr(start));
        queue.push(copy_addr(start));
        proof {
            lemma_set_view_facts(nodes@);
            assert(views(queue@) =~= one);
            assert(views(nodes@) =~= one);
            assert forall|a: Addr| one.to_set().contains(a) <==> c.contains(a) by {
                if a == av(*start) {
                    assert(one[0] == a);
                }
            }
            assert(one.to_set() =~= c);
            assert(set_view(nodes@) =~= c);
            assert(set_view(cells@) == graph_cells(deps));
            assert forall|s: Set<Addr>| c.subset_of(s) && #[trigger] forward_closed(deps, s) implies set_view(nodes@).subset_of(s) by {}
        }
        let ghost bound = 1 + cells@.len();
        let mut qi: usize = 0;
        while qi < queue.len()
            invariant
                self.wf(),
                deps == self.deps(),
                c == set![av(*start)],
                one == seq![av(*start)],
                set_view(cells@) == graph_cells(deps),
                bound == 1 + cells@.len(),
                qi <= queue@.len(),
                strictly_sorted(views(nodes@)),
                views(queue@).no_duplicates(),
                views(queue@).to_set() == set_view(nodes@),
                c.subset_of(set_view(nodes@)),
                set_view(nodes@).subset_of(one.to_set().union(views(cells@).to_set())),
                forall|j: int| 0 <= j < qi ==> #[trigger] reads_of(deps, views(queue@)[j]).subset_of(set_view(nodes@)),
                forall|s: Set<Addr>| c.subset_of(s) && #[trigger] forward_closed(deps, s) ==> set_view(nodes@).subset_of(s),
            decreases bound - qi,
        {
            proof {
                lemma_distinct_bound(views(queue@), one, views(cells@));
            }
            let succ = self.dependencies_of(&queue[qi]);
            let ghost src = av(queue@[qi as int]);
            let mut r: usize = 0;
            while r < succ.len()
                invariant
                    self.wf(),
                    deps == self.deps(),
                    c == set![av(*start)],
                    one == seq![av(*start)],
                    set_view(cells@) == graph_cells(deps),
                    qi < queue@.len(),
                    src == av(queue@[qi as int]),
                    lists(succ@, reads_of(deps, src)),
                    r <= succ@.len(),
                    strictly_sorted(views(nodes@)),
                    views(queue@).no_duplicates(),
                    views(queue@).to_set() == set_view(nodes@),
                    c.subset_of(set_view(nodes@)),
                    set_view(nodes@).subset_of(one.to_set().union(views(cells@).to_set())),
                    forall|j: int| 0 <= j < qi ==> #[trigger] reads_of(deps, views(queue@)[j]).subset_of(set_view(nodes@)),
                    forall|t: int| 0 <= t < r ==> set_view(nodes@).contains(#[trigger] av(succ@[t])),
                    forall|s: Set<Addr>| c.subset_of(s) && #[trigger] forward_closed(deps, s) ==> set_view(nodes@).subset_of(s),
                decreases succ@.len() - r,
            {
                let ghost before = nodes@;
                let ghost qbefore = queue@;
                proof {
                    lemma_set_view_facts(succ@);
                    assert(reads_of(deps, src).contains(av(succ@[r as int])));
                }
                if !crate::addr_set::sorted_contains(&nodes, &succ[r]) {
                    let d = copy_addr(&succ[r]);
                    sorted_insert(&mut nodes, copy_addr(&succ[r]));
                    queue.push(d);
                    proof {
                        let x = av(succ@[r as int]);
                        lemma_views_push(qbefore, queue@.last());
                        assert(queue@ == qbefore.push(queue@.last()));
                        lemma_push_to_set(views(qbefore), av(queue@.last()));
                        assert(views(queue@)[qi as int] == views(qbefore)[qi as int]);
                        assert forall|j: int| 0 <= j < qi implies #[trigger] reads_of(deps, views(queue@)[j]).subset_of(set_view(nodes@)) by {
                            assert(views(queue@)[j] == views(qbefore)[j]);
                            assert(reads_of(deps, views(qbefore)[j]).subset_of(set_view(before)));
                        }
                        assert(deps.contains_key(src) && deps[src].contains(x));
                        assert(graph_cells(deps).contains(x));
                        assert(views(cells@).to_set().contains(x));
                        assert forall|s: Set<Addr>| c.subset_of(s) && #[trigger] forward_closed(deps, s) implies set_view(nodes@).subset_of(s) by {
                            assert(set_view(before).subset_of(s));
                            assert(views(qbefore).to_set().contains(src));
                            assert(s.contains(src));
                            assert(s.contains(x));
                        }
                    }
                }
                proof {
                    assert(set_view(before).subset_of(set_view(nodes@)));
                }
                r += 1;
            }
            proof {
                assert(reads_of(deps, views(queue@)[qi as int]).subset_of(set_view(nodes@))) by {
                    assert(views(queue@)[qi as int] == src);
                    lemma_set_view_facts(succ@);
                    assert forall|x: Addr| reads_of(deps, src).contains(x) implies set_view(nodes@).contains(x) by {
                        assert(set_view(succ@).contains(x));
                        let t = choose|t: int| 0 <= t < succ@.len() && av(succ@[t]) == x;
                    }
                }
            }
            qi += 1;
        }
        proof {
            assert forall|f: Addr, x: Addr| set_view(nodes@).contains(f) && deps.contains_key(f) && #[trigger] deps[f].contains(x)
                implies set_view(nodes@).contains(x) by {
                assert(views(queue@).to_set().contains(f));
                let j = choose|j: int| 0 <= j < views(queue@).len() && views(queue@)[j] == f;
                assert(reads_of(deps, views(queue@)[j]).subset_of(set_view(nodes@)));
            }
        }
        nodes
    }
}

/// A copy of the listing, cell for cell.
fn copy_list(v: &Vec<CellAddress>) -> (res: Vec<CellAddress>)
    ensures
        views(res@) == views(v@),
{
    let mut res: Vec<CellAddress> = Vec::new();
    let mut i: usize = 0;
    while i < v.len()
        invariant
            i <= v@.len(),
            res@.len() == i,
            forall|t: int| 0 <= t < i ==> av(#[trigger] res@[t]) == av(v@[t]),
        decreases v@.len() - i,
    {
        res.push(copy_addr(&v[i]));
        i += 1;
    }
    assert(views(res@) =~= views(v@));
    res
}

/// Whether `comp` holds exactly the cells that are in both `fwd` and `bwd`.
fn is_component(comp: &Vec<CellAddress>, fwd: &Vec<CellAddress>, bwd: &Vec<CellAddress>) -> (res: bool)
    ensures
        res == (set_view(comp@) == set_view(fwd@).intersect(set_view(bwd@))),
{
    proof {
        lemma_set_view_facts(comp@);
        lemma_set_view_facts(fwd@);
    }
    let mut i: usize = 0;
    while i < comp.len()
        invariant
            i <= comp@.len(),
            forall|t: int| 0 <= t < i ==> set_view(fwd@).intersect(set_view(bwd@)).contains(#[trigger] av(comp@[t])),
        decreases comp@.len() - i,
    {
        if !sorted_contains(fwd, &comp[i]) || !sorted_contains(bwd, &comp[i]) {
            proof {
                lemma_set_view_facts(comp@);
                assert(set_view(comp@).contains(av(comp@[i as int])));
            }
            return false;
        }
        i += 1;
    }
    let mut j: usize = 0;
    while j < fwd.len()
        invariant
            j <= fwd@.len(),
            forall|t: int| 0 <= t < j && set_view(bwd@).contains(av(#[trigger] fwd@[t])) ==> set_view(comp@).contains(av(fwd@[t])),
        decreases fwd@.len() - j,
    {
        if sorted_contains(bwd, &fwd[j]) && !sorted_contains(comp, &fwd[j]) {
            proof {
                lemma_set_view_facts(fwd@);
                assert(set_view(fwd@).intersect(set_view(bwd@)).contains(av(fwd@[j as int])));
            }
            return false;
        }
        j += 1;
    }
    proof {
        lemma_set_view_facts(comp@);
        lemma_set_view_facts(fwd@);
        assert forall|a: Addr| set_view(comp@).contains(a) <==> set_view(fwd@).intersect(set_view(bwd@)).contains(a) by {
            if set_view(comp@).contains(a) {
                let t = choose|t: int| 0 <= t < comp@.len() && av(comp@[t]) == a;
                assert(set_view(fwd@).intersect(set_view(bwd@)).contains(av(comp@[t])));
            }
            if set_view(fwd@).intersect(set_view(bwd@)).contains(a) {
                let t = choose|t: int| 0 <= t < fwd@.len() && av(fwd@[t]) == a;
                assert(set_view(bwd@).contains(av(fwd@[t])));
            }
        }
        assert(set_view(comp@) =~= set_view(fwd@).intersect(set_view(bwd@)));
    }
    true
}

/// Each listed part is a cyclic strongly connected part in address order,
/// the part of its first cell, and no two parts share a cell.
pub open spec fn cycle_parts(deps: Map<Addr, Set<Addr>>, res: Seq<Vec<CellAddress>>) -> bool {
    &&& forall|k: int| 0 <= k < res.len() ==> #[trigger] cycle_listing(deps, res[k]@)
    &&& forall|k: int| 0 <= k < res.len() ==> set_view(#[trigger] res[k]@) == scc_of(deps, av(res[k]@[0]))
    &&& forall|k1: int, k2: int|
        0 <= k1 < k2 < res.len() ==> set_view(#[trigger] res[k1]@).disjoint(set_view(#[trigger] res[k2]@))
}

/// Every cell on a cycle is in some listed part.
pub open spec fn covers_cycles(deps: Map<Addr, Set<Addr>>, res: Seq<Vec<CellAddress>>) -> bool {
    forall|x: Addr| #[trigger] on_cycle(deps, x) ==> exists|k: int| 0 <= k < res.len() && set_view(res[k]@).contains(x)
}

/// A cell in the strongly connected part of `a` has that same part.
pub proof fn lemma_scc_same(deps: Map<Addr, Set<Addr>>, a: Addr, b: Addr)
    requires
        scc_of(deps, a).contains(b),
    ensures
        scc_of(deps, b) == scc_of(deps, a),
{
    assert forall|z: Addr| scc_of(deps, b).contains(z) <==> scc_of(deps, a).contains(z) by {
        if scc_of(deps, b).contains(z) {
            lemma_reaches_trans(deps, a, b, z);
            lemma_reaches_trans(deps, z, b, a);
        }
        if scc_of(deps, a).contains(z) {
            lemma_reaches_trans(deps, b, a, z);
            lemma_reaches_trans(deps, z, a, b);
        }
    }
    assert(scc_of(deps, b) =~= scc_of(deps, a));
}

/// Adding a whole strongly connected part keeps a set closed under parts.
proof fn lemma_scc_closed_union(deps: Map<Addr, Set<Addr>>, u: Set<Addr>, r: Addr)
    requires
        scc_closed(deps, u),
    ensures
        scc_closed(deps, u.union(scc_of(deps, r))),
{
    let w = u.union(scc_of(deps, r));
    assert forall|y: Addr, z: Addr| w.contains(y) && #[trigger] reaches(deps, y, z) && #[trigger] reaches(deps, z, y) implies w.contains(z) by {
        if !u.contains(y) {
            lemma_reaches_trans(deps, r, y, z);
            lemma_reaches_trans(deps, z, y, r);
        }
    }
}

/// The part of a formula cell `a` outside the part-closed `before`, listed
/// in address order, is a cyclic part that shares no cell with `before`
/// when it has two cells or `a` reads itself.
proof fn lemma_new_part(deps: Map<Addr, Set<Addr>>, comp: Seq<CellAddress>, a: Addr, before: Set<Addr>)
    requires
        strictly_sorted(views(comp)),
        set_view(comp) == scc_of(deps, a),
        deps.contains_key(a),
        comp.len() > 1 || deps[a].contains(a),
        !before.contains(a),
        scc_closed(deps, before),
    ensures
        cycle_listing(deps, comp),
        set_view(comp) == scc_of(deps, av(comp[0])),
        set_view(comp).disjoint(before),
{
    lemma_set_view_facts(comp);
    lemma_reaches_refl(deps, a);
    assert(set_view(comp).contains(a));
    assert(comp.len() > 0);
    assert(set_view(comp).contains(av(comp[0])));
    lemma_scc_same(deps, a, av(comp[0]));
    assert forall|z: Addr| set_view(comp).contains(z) implies graph_cells(deps).contains(z) by {
        if !deps.contains_key(z) {
            lemma_leaf_reaches(deps, z, a);
        }
    }
    if comp.len() <= 1 {
        let i = choose|i: int| 0 <= i < comp.len() && av(comp[i]) == a;
        assert(i == 0);
    }
    assert forall|z: Addr| set_view(comp).contains(z) implies !before.contains(z) by {
        if before.contains(z) {
            assert(reaches(deps, z, a) && reaches(deps, a, z));
        }
    }
}

/// The edges of `edges` whose dependent is in `nodes`.
fn edges_into(edges: &Vec<FormulaDependencyEdge>, nodes: &Vec<CellAddress>) -> (res: Vec<FormulaDependencyEdge>)
    ensures
        forall|p: (Addr, Addr)| #[trigger] edge_views(res@).to_set().contains(p) <==> edge_views(edges@).to_set().contains(p)
            && set_view(nodes@).contains(p.1),
{
    let mut out: Vec<FormulaDependencyEdge> = Vec::new();
    let mut i: usize = 0;
    proof {
        assert(edge_views(out@).to_set() =~= Set::<(Addr, Addr)>::empty());
    }
    while i < edges.len()
        invariant
            i <= edges@.len(),
            forall|p: (Addr, Addr)| #[trigger] edge_views(out@).to_set().contains(p) <==> (exists|m: int| 0 <= m < i
                && edge_views(edges@)[m] == p) && set_view(nodes@).contains(p.1),
        decreases edges@.len() - i,
    {
        let e = &edges[i];
        let ghost x = ev(*e);
        let ghost before = out@;
        if sorted_contains(nodes, &e.dependent) {
            out.push(FormulaDependencyEdge { source: copy_addr(&e.source), dependent: copy_addr(&e.dependent) });
            proof {
                assert(edge_views(out@) =~= edge_views(before).push(x));
                lemma_edge_push_to_set(edge_views(before), x);
            }
        }
        proof {
            assert(edge_views(edges@)[i as int] == x);
            assert forall|p: (Addr, Addr)| #[trigger] edge_views(out@).to_set().contains(p) <==> (exists|m: int| 0 <= m < i + 1
                && edge_views(edges@)[m] == p) && set_view(nodes@).contains(p.1) by {
                if exists|m: int| 0 <= m < i + 1 && edge_views(edges@)[m] == p {
                    let m = choose|m: int| 0 <= m < i + 1 && edge_views(edges@)[m] == p;
                    if m < i {
                        assert(exists|m2: int| 0 <= m2 < i && edge_views(edges@)[m2] == p);
                    }
                }
                if exists|m: int| 0 <= m < i && edge_views(edges@)[m] == p {
                    let m = choose|m: int| 0 <= m < i && edge_views(edges@)[m] == p;
                    assert(0 <= m < i + 1);
                }
            }
        }
        i += 1;
    }
    proof {
        assert forall|p: (Addr, Addr)| #[trigger] edge_views(out@).to_set().contains(p) <==> edge_views(edges@).to_set().contains(p)
            && set_view(nodes@).contains(p.1) by {
            if edge_views(edges@).to_set().contains(p) {
                let m = choose|m: int| 0 <= m < edge_views(edges@).len() && edge_views(edges@)[m] == p;
                assert(0 <= m < i);
            }
            if exists|m: int| 0 <= m < i && edge_views(edges@)[m] == p {
                let m = choose|m: int| 0 <= m < i && edge_views(edges@)[m] == p;
                assert(edge_views(edges@).contains(p));
            }
        }
    }
    out
}

/// In a snapshot `from_model` accepts, a cell has an entry exactly when it
/// holds a formula, and the entry is what that formula reads.
proof fn lemma_formula_map_entry(model: SpreadsheetModel, lk: Map<Seq<char>, Seq<char>>, a: Addr)
    requires
        spec_lookup(model.sheets@) == Ok::<Map<Seq<char>, Seq<char>>, Seq<char>>(lk),
        snapshot_indexable(model),
    ensures
        formula_map(model, lk).contains_key(a) <==> reads_ok(snapshot_reads(model, lk, a)),
        !reads_fail(snapshot_reads(model, lk, a)),
        formula_map(model, lk).contains_key(a) ==> formula_map(model, lk)[a] == scan_set(
            snapshot_reads(model, lk, a)->Some_0,
        ),
{
    let fm = formula_map(model, lk);
    let n = model.sheets@.len() as int;
    if fm.contains_key(a) {
        let (i, j) = choose|i: int, j: int| formula_at(model, i, j) && pos_addr(model, i, j) == a;
        lemma_snapshot_at(model, i, j);
        assert(precedes(i, j, n, 0));
        assert(pos_scan(model, lk, i, j) is Ok);
    } else if snapshot_formula(model, a) is Some {
        let (i, j) = choose|i: int, j: int|
            first_sheet_with(model, a.0, i) && first_cell_at(model.sheets@[i], a.1, a.2, j);
        lemma_snapshot_at(model, i, j);
        assert(pos_addr(model, i, j) == a);
        assert(formula_at(model, i, j));
    }
}

/// Workbooks whose sheets have the same ids and names in the same order
/// resolve sheet names the same way.
proof fn lemma_lookup_same_sheets(s0: Seq<SheetModel>, s1: Seq<SheetModel>, t: nat)
    requires
        s0.len() == s1.len(),
        t <= 2 * s0.len(),
        forall|i: int| 0 <= i < s0.len() ==> (#[trigger] s0[i]).id@ == s1[i].id@ && s0[i].name@ == s1[i].name@,
    ensures
        lookup_fold(s0, t) == lookup_fold(s1, t),
    decreases t,
{
    if t > 0 {
        lemma_lookup_same_sheets(s0, s1, (t - 1) as nat);
        assert(s0[(t - 1) / 2].id@ == s1[(t - 1) / 2].id@);
        assert(lookup_pair(s0, t - 1) == lookup_pair(s1, t - 1));
    }
}

/// The law that incremental update serves for an edit: when an edit keeps
/// the sheets' ids and names and `c` holds every cell whose formula it
/// changed, the index of the workbook before the edit, refreshed at `c`
/// against the edited workbook, is the index built from the edited
/// workbook, entry for entry (both workbooks being ones `from_model`
/// accepts).
pub proof fn law_edit_update_matches_rebuild(m0: SpreadsheetModel, m1: SpreadsheetModel, c: Set<Addr>)
    requires
        snapshot_indexable(m0),
        snapshot_indexable(m1),
        m0.sheets@.len() == m1.sheets@.len(),
        forall|i: int|
            0 <= i < m0.sheets@.len() ==> (#[trigger] m0.sheets@[i]).id@ == m1.sheets@[i].id@ && m0.sheets@[i].name@
                == m1.sheets@[i].name@,
        forall|a: Addr| !c.contains(a) ==> snapshot_formula(m0, a) == snapshot_formula(m1, a),
    ensures
        spec_lookup(m0.sheets@) == spec_lookup(m1.sheets@),
        spec_lookup(m1.sheets@) matches Ok(lk) && refreshed(formula_map(m0, lk), c, c, m1, lk) == formula_map(m1, lk),
{
    lemma_lookup_same_sheets(m0.sheets@, m1.sheets@, 2 * m0.sheets@.len());
    let lk = spec_lookup(m1.sheets@)->Ok_0;
    let old = formula_map(m0, lk);
    assert forall|a: Addr| !c.contains(a) implies (#[trigger] old.contains_key(a) <==> formula_map(m1, lk).contains_key(a))
        && (old.contains_key(a) ==> old[a] == formula_map(m1, lk)[a]) by {
        lemma_formula_map_entry(m0, lk, a);
        lemma_formula_map_entry(m1, lk, a);
    }
    law_update_matches_rebuild(old, m1, lk, c);
}

} // verus!
