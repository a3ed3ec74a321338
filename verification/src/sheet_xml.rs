//! The worksheet part of an exported XLSX package, written from the
//! library's sheet model: the declared size, the frozen pane, and the cells
//! row by row, with text values through the shared-string table and styles
//! through the style table.

use vstd::prelude::*;
use crate::a1::{col_name, a1_text};
use crate::grid::GridRange;
use crate::cells::CellValue;
use crate::dependency::{CellModel, FreezePane, SheetMetadata, SheetModel, SpreadsheetModel};
use crate::text::{decimal, decimal_chars, push_chars, push_text, chars_of, string_of, same_text};
use crate::xlsx::{column_name, escaped, xml_escape, XlsxError};

verus! {

pub const WORKSHEET_HEAD: &'static str = "<?xml version=\"1.0\" encoding=\"UTF-8\" standalone=\"yes\"?><worksheet xmlns=\"http://schemas.openxmlformats.org/spreadsheetml/2006/main\">";
pub const WORKSHEET_CLOSE: &'static str = "</worksheet>";
pub const DIMENSION_OPEN: &'static str = "<dimension ref=\"A1:";
pub const EMPTY_CLOSE: &'static str = "\"/>";
pub const PANE_OPEN: &'static str = "<sheetViews><sheetView workbookViewId=\"0\"><pane";
pub const X_SPLIT: &'static str = " xSplit=\"";
pub const Y_SPLIT: &'static str = " ySplit=\"";
pub const QUOTE: &'static str = "\"";
pub const TOP_LEFT: &'static str = " topLeftCell=\"";
pub const PANE_CLOSE: &'static str = "\" state=\"frozen\"/></sheetView></sheetViews>";
pub const SHEET_DATA_OPEN: &'static str = "<sheetData>";
pub const SHEET_DATA_CLOSE: &'static str = "</sheetData>";
pub const ROW_OPEN: &'static str = "<row r=\"";
pub const TAG_END: &'static str = "\">";
pub const ROW_CLOSE: &'static str = "</row>";
pub const CELL_OPEN: &'static str = "<c r=\"";
pub const GT: &'static str = ">";
pub const CELL_CLOSE: &'static str = "</c>";
pub const F_OPEN: &'static str = "<f>";
pub const F_CLOSE: &'static str = "</f>";
pub const V_OPEN: &'static str = "<v>";
pub const V_CLOSE: &'static str = "</v>";
pub const T_SHARED: &'static str = " t=\"s\"";
pub const T_STR: &'static str = " t=\"str\"";
pub const T_BOOL: &'static str = " t=\"b\"";
pub const V_TRUE: &'static str = "<v>1</v>";
pub const V_FALSE: &'static str = "<v>0</v>";
pub const S_OPEN: &'static str = " s=\"";
pub const MERGE_OPEN: &'static str = "<mergeCells count=\"";
pub const MERGE_CELL_OPEN: &'static str = "<mergeCell ref=\"";
pub const MERGE_CLOSE: &'static str = "</mergeCells>";
pub const UNREGISTERED_SHARED_STRING: &'static str = "shared string 未登记";

/// The `<dimension>` of a sheet that declares both a row and a column count,
/// both above zero.
pub open spec fn dimension_xml(m: SheetMetadata) -> Seq<char> {
    match (m.row_count, m.column_count) {
        (Some(r), Some(c)) => if r > 0 && c > 0 {
            DIMENSION_OPEN@ + col_name((c - 1) as nat) + decimal(r as nat) + EMPTY_CLOSE@
        } else {
            Seq::empty()
        },
        _ => Seq::empty(),
    }
}

/// The frozen pane, unless nothing is frozen.
pub open spec fn pane_xml(f: FreezePane) -> Seq<char> {
    if f.rows == 0 && f.columns == 0 {
        Seq::empty()
    } else {
        PANE_OPEN@ + (if f.columns > 0 {
            X_SPLIT@ + decimal(f.columns as nat) + QUOTE@
        } else {
            Seq::empty()
        }) + (if f.rows > 0 {
            Y_SPLIT@ + decimal(f.rows as nat) + QUOTE@
        } else {
            Seq::empty()
        }) + TOP_LEFT@ + col_name(f.columns as nat) + decimal(f.rows as nat + 1) + PANE_CLOSE@
    }
}

/// The text without its leading `=` signs.
pub open spec fn strip_eq(s: Seq<char>) -> Seq<char>
    decreases s.len(),
{
    if s.len() > 0 && s[0] == '=' {
        strip_eq(s.drop_first())
    } else {
        s
    }
}

/// The index of the first shared string equal to `t`, or -1.
pub open spec fn shared_index(shared: Seq<String>, t: Seq<char>) -> int
    decreases shared.len(),
{
    if shared.len() == 0 {
        -1
    } else {
        let p = shared_index(shared.drop_last(), t);
        if p >= 0 {
            p
        } else if shared.last()@ == t {
            shared.len() - 1
        } else {
            -1
        }
    }
}

/// The style index the first entry for `key` gives.
pub open spec fn style_index(styles: Seq<(String, usize)>, key: Seq<char>) -> Option<usize>
    decreases styles.len(),
{
    if styles.len() == 0 {
        None
    } else {
        match style_index(styles.drop_last(), key) {
            Some(i) => Some(i),
            None => if styles.last().0@ == key {
                Some(styles.last().1)
            } else {
                None
            },
        }
    }
}

/// The attributes and the body a value adds to its cell; `None` for a
/// plain text that the shared-string table lacks.
pub open spec fn value_parts(v: CellValue, formula: bool, shared: Seq<String>) -> Option<(Seq<char>, Seq<char>)> {
    match v {
        CellValue::Text(t) => if !formula {
            let i = shared_index(shared, t@);
            if i < 0 {
                None
            } else {
                Some((T_SHARED@, V_OPEN@ + decimal(i as nat) + V_CLOSE@))
            }
        } else {
            Some((T_STR@, V_OPEN@ + escaped(t@) + V_CLOSE@))
        },
        CellValue::Number(n) => Some((Seq::empty(), V_OPEN@ + n@ + V_CLOSE@)),
        CellValue::Bool(b) => Some((T_BOOL@, if b { V_TRUE@ } else { V_FALSE@ })),
        CellValue::Null => Some((Seq::empty(), Seq::empty())),
    }
}

/// The style attribute of a cell whose style the table lists.
pub open spec fn style_attr(style: Option<String>, styles: Seq<(String, usize)>) -> Seq<char> {
    match style {
        Some(st) => match style_index(styles, st@) {
            Some(i) => S_OPEN@ + decimal(i as nat) + QUOTE@,
            None => Seq::empty(),
        },
        None => Seq::empty(),
    }
}

pub open spec fn formula_body(formula: Option<String>) -> Seq<char> {
    match formula {
        Some(f) => F_OPEN@ + escaped(strip_eq(f@)) + F_CLOSE@,
        None => Seq::empty(),
    }
}

/// The attributes and body a cell's value gives it.
pub open spec fn cell_parts(c: CellModel, shared: Seq<String>) -> Option<(Seq<char>, Seq<char>)> {
    match c.value {
        Some(v) => value_parts(v, c.formula is Some, shared),
        None => Some((Seq::<char>::empty(), Seq::<char>::empty())),
    }
}

/// A cell's `<c>` element.
pub open spec fn cell_xml(c: CellModel, shared: Seq<String>, styles: Seq<(String, usize)>) -> Option<Seq<char>> {
    match cell_parts(c, shared) {
        None => None,
        Some((attrs, body)) => Some(
            CELL_OPEN@ + col_name(c.column as nat) + decimal(c.row as nat + 1) + QUOTE@ + attrs + style_attr(
                c.style,
                styles,
            ) + GT@ + formula_body(c.formula) + body + CELL_CLOSE@,
        ),
    }
}

/// A row number added to an ascending list without repeats.
pub open spec fn insert_row(rs: Seq<u32>, r: u32) -> Seq<u32>
    decreases rs.len(),
{
    if rs.len() == 0 {
        seq![r]
    } else if r < rs[0] {
        seq![r] + rs
    } else if r == rs[0] {
        rs
    } else {
        seq![rs[0]] + insert_row(rs.drop_first(), r)
    }
}

/// The rows that hold cells, ascending.
pub open spec fn rows_of(cells: Seq<CellModel>) -> Seq<u32>
    decreases cells.len(),
{
    if cells.len() == 0 {
        Seq::empty()
    } else {
        insert_row(rows_of(cells.drop_last()), cells.last().row)
    }
}

/// The cells of row `r`, in the sheet's order.
pub open spec fn row_cells_xml(cells: Seq<CellModel>, r: u32, shared: Seq<String>, styles: Seq<(String, usize)>) -> Option<Seq<char>>
    decreases cells.len(),
{
    if cells.len() == 0 {
        Some(Seq::empty())
    } else {
        match row_cells_xml(cells.drop_last(), r, shared, styles) {
            None => None,
            Some(p) => if cells.last().row == r {
                match cell_xml(cells.last(), shared, styles) {
                    None => None,
                    Some(x) => Some(p + x),
                }
            } else {
                Some(p)
            },
        }
    }
}

/// The `<row>` elements of the listed rows.
pub open spec fn rows_xml(rs: Seq<u32>, cells: Seq<CellModel>, shared: Seq<String>, styles: Seq<(String, usize)>) -> Option<Seq<char>>
    decreases rs.len(),
{
    if rs.len() == 0 {
        Some(Seq::empty())
    } else {
        match (rows_xml(rs.drop_last(), cells, shared, styles), row_cells_xml(cells, rs.last(), shared, styles)) {
            (Some(a), Some(b)) => Some(a + ROW_OPEN@ + decimal(rs.last() as nat + 1) + TAG_END@ + b + ROW_CLOSE@),
            _ => None,
        }
    }
}

/// The `<mergeCell>` elements of the first `n` merged regions.
pub open spec fn merge_items(rs: Seq<GridRange>, n: nat) -> Seq<char>
    decreases n,
{
    if n == 0 {
        Seq::empty()
    } else {
        let r = rs[n - 1];
        merge_items(rs, (n - 1) as nat) + MERGE_CELL_OPEN@ + a1_text(r.start_row as nat, r.start_column as nat) + seq![':']
            + a1_text(r.end_row as nat, r.end_column as nat) + EMPTY_CLOSE@
    }
}

/// The `<mergeCells>` element, unless no region is merged.
pub open spec fn merges_xml(rs: Seq<GridRange>) -> Seq<char> {
    if rs.len() == 0 {
        Seq::empty()
    } else {
        MERGE_OPEN@ + decimal(rs.len()) + TAG_END@ + merge_items(rs, rs.len()) + MERGE_CLOSE@
    }
}

/// The worksheet part of a sheet, or `None` when a plain text value is
/// missing from the shared-string table.
pub open spec fn spec_worksheet_xml(sheet: SheetModel, shared: Seq<String>, styles: Seq<(String, usize)>) -> Option<Seq<char>> {
    match rows_xml(rows_of(sheet.cells@), sheet.cells@, shared, styles) {
        None => None,
        Some(body) => Some(
            WORKSHEET_HEAD@ + dimension_xml(sheet.metadata) + pane_xml(sheet.metadata.freeze) + SHEET_DATA_OPEN@ + body
                + SHEET_DATA_CLOSE@ + merges_xml(sheet.merged_ranges@) + WORKSHEET_CLOSE@,
        ),
    }
}

proof fn lemma_shared_prefix(s: Seq<String>, n: int, t: Seq<char>)
    requires
        0 <= n <= s.len(),
        shared_index(s.take(n), t) >= 0,
    ensures
        shared_index(s, t) == shared_index(s.take(n), t),
    decreases s.len(),
{
    if s.len() > n {
        assert(s.drop_last().take(n) =~= s.take(n));
        lemma_shared_prefix(s.drop_last(), n, t);
    } else {
        assert(s.take(n) =~= s);
    }
}

proof fn lemma_style_prefix(s: Seq<(String, usize)>, n: int, key: Seq<char>)
    requires
        0 <= n <= s.len(),
        style_index(s.take(n), key) is Some,
    ensures
        style_index(s, key) == style_index(s.take(n), key),
    decreases s.len(),
{
    if s.len() > n {
        assert(s.drop_last().take(n) =~= s.take(n));
        lemma_style_prefix(s.drop_last(), n, key);
    } else {
        assert(s.take(n) =~= s);
    }
}

/// The index of the first shared string equal to `t`.
pub fn shared_lookup(shared: &Vec<String>, t: &str) -> (res: Option<usize>)
    ensures
        match res {
            Some(i) => i as int == shared_index(shared@, t@),
            None => shared_index(shared@, t@) == -1,
        },
{
    let mut k: usize = 0;
    while k < shared.len()
        invariant
            k <= shared@.len(),
            shared_index(shared@.take(k as int), t@) == -1,
        decreases shared@.len() - k,
    {
        proof {
            assert(shared@.take(k + 1).drop_last() =~= shared@.take(k as int));
        }
        if same_text(shared[k].as_str(), t) {
            proof {
                lemma_shared_prefix(shared@, k + 1, t@);
            }
            return Some(k);
        }
        k += 1;
    }
    proof {
        assert(shared@.take(shared@.len() as int) =~= shared@);
    }
    None
}

/// The style index of the first entry for `key`.
pub fn style_lookup(styles: &Vec<(String, usize)>, key: &str) -> (res: Option<usize>)
    ensures
        res == style_index(styles@, key@),
{
    let mut k: usize = 0;
    while k < styles.len()
        invariant
            k <= styles@.len(),
            style_index(styles@.take(k as int), key@) is None,
        decreases styles@.len() - k,
    {
        proof {
            assert(styles@.take(k + 1).drop_last() =~= styles@.take(k as int));
        }
        if same_text(styles[k].0.as_str(), key) {
            proof {
                lemma_style_prefix(styles@, k + 1, key@);
            }
            return Some(styles[k].1);
        }
        k += 1;
    }
    proof {
        assert(styles@.take(styles@.len() as int) =~= styles@);
    }
    None
}

/// The text without its leading `=` signs.
fn strip_eq_chars(v: &Vec<char>) -> (res: Vec<char>)
    ensures
        res@ == strip_eq(v@),
{
    let mut k: usize = 0;
    proof {
        assert(v@.skip(0) =~= v@);
    }
    while k < v.len() && v[k] == '='
        invariant
            k <= v@.len(),
            strip_eq(v@) == strip_eq(v@.skip(k as int)),
        decreases v@.len() - k,
    {
        proof {
            assert(v@.skip(k as int).drop_first() =~= v@.skip(k + 1));
        }
        k += 1;
    }
    let mut out: Vec<char> = Vec::new();
    let start = k;
    while k < v.len()
        invariant
            start <= k <= v@.len(),
            out@ == v@.subrange(start as int, k as int),
        decreases v@.len() - k,
    {
        out.push(v[k]);
        proof {
            assert(out@ =~= v@.subrange(start as int, k + 1));
        }
        k += 1;
    }
    proof {
        assert(v@.skip(start as int) =~= v@.subrange(start as int, v@.len() as int));
    }
    out
}

proof fn lemma_insert_row(rs: Seq<u32>, r: u32, k: int)
    requires
        0 <= k <= rs.len(),
        forall|j: int| 0 <= j < k ==> rs[j] < r,
        k == rs.len() || rs[k] >= r,
    ensures
        insert_row(rs, r) == if k < rs.len() && rs[k] == r { rs } else { rs.insert(k, r) },
    decreases k,
{
    if k == 0 {
        if rs.len() == 0 {
            assert(rs.insert(0, r) =~= seq![r]);
        } else if r < rs[0] {
            assert(rs.insert(0, r) =~= seq![r] + rs);
        }
    } else {
        lemma_insert_row(rs.drop_first(), r, k - 1);
        if k - 1 < rs.len() - 1 && rs[k] == r {
            assert(seq![rs[0]] + rs.drop_first() =~= rs);
        } else {
            assert(seq![rs[0]] + rs.drop_first().insert(k - 1, r) =~= rs.insert(k, r));
        }
    }
}

/// Adds a row number to an ascending list without repeats.
fn insert_row_exec(list: &mut Vec<u32>, r: u32)
    ensures
        final(list)@ == insert_row(old(list)@, r),
{
    let mut k: usize = 0;
    while k < list.len() && list[k] < r
        invariant
            k <= list@.len(),
            forall|j: int| 0 <= j < k ==> list@[j] < r,
        decreases list@.len() - k,
    {
        k += 1;
    }
    proof {
        lemma_insert_row(list@, r, k as int);
    }
    if k < list.len() && list[k] == r {
        return;
    }
    list.insert(k, r);
}

/// A cell's `<c>` element, or `None` when its plain text value is missing
/// from the shared-string table.
pub fn cell_element(c: &CellModel, shared: &Vec<String>, styles: &Vec<(String, usize)>) -> (res: Option<Vec<char>>)
    ensures
        match cell_xml(*c, shared@, styles@) {
            None => res is None,
            Some(x) => res matches Some(v) && v@ == x,
        },
{
    let mut attrs: Vec<char> = Vec::new();
    let mut body: Vec<char> = Vec::new();
    let is_formula = c.formula.is_some();
    match &c.value {
        Some(CellValue::Text(t)) => {
            if !is_formula {
                match shared_lookup(shared, t.as_str()) {
                    None => {
                        return None;
                    },
                    Some(i) => {
                        push_text(&mut attrs, T_SHARED);
                        push_text(&mut body, V_OPEN);
                        push_chars(&mut body, &decimal_chars(i as u64));
                        push_text(&mut body, V_CLOSE);
                    },
                }
            } else {
                push_text(&mut attrs, T_STR);
                push_text(&mut body, V_OPEN);
                let e = xml_escape(t.as_str());
                push_text(&mut body, e.as_str());
                push_text(&mut body, V_CLOSE);
            }
        },
        Some(CellValue::Number(n)) => {
            push_text(&mut body, V_OPEN);
            push_text(&mut body, n.as_str());
            push_text(&mut body, V_CLOSE);
        },
        Some(CellValue::Bool(b)) => {
            push_text(&mut attrs, T_BOOL);
            if *b {
                push_text(&mut body, V_TRUE);
            } else {
                push_text(&mut body, V_FALSE);
            }
        },
        _ => {},
    }
    proof {
        assert(cell_parts(*c, shared@) == Some((attrs@, body@)));
    }
    let mut out: Vec<char> = Vec::new();
    push_text(&mut out, CELL_OPEN);
    let col = column_name(c.column);
    push_text(&mut out, col.as_str());
    push_chars(&mut out, &decimal_chars(c.row as u64 + 1));
    push_text(&mut out, QUOTE);
    push_chars(&mut out, &attrs);
    let ghost before_style = out@;
    match &c.style {
        Some(st) => match style_lookup(styles, st.as_str()) {
            Some(i) => {
                push_text(&mut out, S_OPEN);
                push_chars(&mut out, &decimal_chars(i as u64));
                push_text(&mut out, QUOTE);
            },
            None => {},
        },
        None => {},
    }
    proof {
        assert(out@ =~= before_style + style_attr(c.style, styles@));
    }
    push_text(&mut out, GT);
    let ghost before_formula = out@;
    match &c.formula {
        Some(f) => {
            push_text(&mut out, F_OPEN);
            let stripped = strip_eq_chars(&chars_of(f.as_str()));
            let text = string_of(&stripped);
            let e = xml_escape(text.as_str());
            push_text(&mut out, e.as_str());
            push_text(&mut out, F_CLOSE);
        },
        None => {},
    }
    proof {
        assert(out@ =~= before_formula + formula_body(c.formula));
    }
    push_chars(&mut out, &body);
    push_text(&mut out, CELL_CLOSE);
    proof {
        assert(out@ =~= CELL_OPEN@ + col_name(c.column as nat) + decimal(c.row as nat + 1) + QUOTE@ + attrs@ + style_attr(
            c.style,
            styles@,
        ) + GT@ + formula_body(c.formula) + body@ + CELL_CLOSE@);
    }
    Some(out)
}

proof fn lemma_row_cells_none(cells: Seq<CellModel>, n: int, r: u32, shared: Seq<String>, styles: Seq<(String, usize)>)
    requires
        0 <= n <= cells.len(),
        row_cells_xml(cells.take(n), r, shared, styles) is None,
    ensures
        row_cells_xml(cells, r, shared, styles) is None,
    decreases cells.len(),
{
    if cells.len() > n {
        assert(cells.drop_last().take(n) =~= cells.take(n));
        lemma_row_cells_none(cells.drop_last(), n, r, shared, styles);
    } else {
        assert(cells.take(n) =~= cells);
    }
}

proof fn lemma_rows_none(rs: Seq<u32>, n: int, cells: Seq<CellModel>, shared: Seq<String>, styles: Seq<(String, usize)>)
    requires
        0 <= n <= rs.len(),
        rows_xml(rs.take(n), cells, shared, styles) is None,
    ensures
        rows_xml(rs, cells, shared, styles) is None,
    decreases rs.len(),
{
    if rs.len() > n {
        assert(rs.drop_last().take(n) =~= rs.take(n));
        lemma_rows_none(rs.drop_last(), n, cells, shared, styles);
    } else {
        assert(rs.take(n) =~= rs);
    }
}

/// The `<mergeCells>` element of the merged regions.
fn merges_chars(merged: &Vec<GridRange>) -> (res: Vec<char>)
    ensures
        res@ == merges_xml(merged@),
{
    let mut out: Vec<char> = Vec::new();
    if merged.len() > 0 {
        push_text(&mut out, MERGE_OPEN);
        push_chars(&mut out, &decimal_chars(merged.len() as u64));
        push_text(&mut out, TAG_END);
        let ghost items_start = out@;
        let mut m: usize = 0;
        while m < merged.len()
            invariant
                m <= merged@.len(),
                out@ == items_start + merge_items(merged@, m as nat),
            decreases merged@.len() - m,
        {
            let r = merged[m];
            push_text(&mut out, MERGE_CELL_OPEN);
            let c1 = column_name(r.start_column);
            push_text(&mut out, c1.as_str());
            push_chars(&mut out, &decimal_chars(r.start_row as u64 + 1));
            out.push(':');
            let c2 = column_name(r.end_column);
            push_text(&mut out, c2.as_str());
            push_chars(&mut out, &decimal_chars(r.end_row as u64 + 1));
            push_text(&mut out, EMPTY_CLOSE);
            m += 1;
            proof {
                assert(out@ =~= items_start + merge_items(merged@, m as nat));
            }
        }
        push_text(&mut out, MERGE_CLOSE);
    }
    proof {
        assert(out@ =~= merges_xml(merged@));
    }
    out
}

/// The worksheet part of a sheet: the declared size, the frozen pane and
/// the cells row by row in ascending row order, each row's cells in the
/// sheet's order. Fails when a plain text value is missing from the
/// shared-string table.
#[verifier::rlimit(40)]
pub fn worksheet_xml(sheet: &SheetModel, shared: &Vec<String>, styles: &Vec<(String, usize)>) -> (res: Result<String, XlsxError>)
    ensures
        match spec_worksheet_xml(*sheet, shared@, styles@) {
            Some(x) => res matches Ok(s) && s@ == x,
            None => res matches Err(XlsxError::InvalidPart(m)) && m@ == UNREGISTERED_SHARED_STRING@,
        },
{
    let cells = &sheet.cells;
    let mut rows: Vec<u32> = Vec::new();
    let mut k: usize = 0;
    while k < cells.len()
        invariant
            k <= cells@.len(),
            cells@ == sheet.cells@,
            rows@ == rows_of(cells@.take(k as int)),
        decreases cells@.len() - k,
    {
        proof {
            assert(cells@.take(k + 1).drop_last() =~= cells@.take(k as int));
        }
        insert_row_exec(&mut rows, cells[k].row);
        k += 1;
    }
    proof {
        assert(cells@.take(cells@.len() as int) =~= cells@);
    }
    let mut data: Vec<char> = Vec::new();
    let mut j: usize = 0;
    while j < rows.len()
        invariant
            j <= rows@.len(),
            cells@ == sheet.cells@,
            rows@ == rows_of(cells@),
            rows_xml(rows@.take(j as int), cells@, shared@, styles@) == Some(data@),
        decreases rows@.len() - j,
    {
        let r = rows[j];
        let mut inner: Vec<char> = Vec::new();
        let mut c: usize = 0;
        while c < cells.len()
            invariant
                c <= cells@.len(),
                j < rows@.len(),
                cells@ == sheet.cells@,
                rows@ == rows_of(cells@),
                rows_xml(rows@.take(j as int), cells@, shared@, styles@) == Some(data@),
                r == rows@[j as int],
                row_cells_xml(cells@.take(c as int), r, shared@, styles@) == Some(inner@),
            decreases cells@.len() - c,
        {
            proof {
                assert(cells@.take(c + 1).drop_last() =~= cells@.take(c as int));
            }
            if cells[c].row == r {
                match cell_element(&cells[c], shared, styles) {
                    None => {
                        proof {
                            lemma_row_cells_none(cells@, c + 1, r, shared@, styles@);
                            assert(rows@.take(j + 1).drop_last() =~= rows@.take(j as int));
                            assert(rows@.take(j + 1).last() == r);
                            assert(rows_xml(rows@.take(j + 1), cells@, shared@, styles@) is None);
                            lemma_rows_none(rows@, j + 1, cells@, shared@, styles@);
                            assert(cells@ == sheet.cells@);
                            assert(rows_xml(rows_of(sheet.cells@), sheet.cells@, shared@, styles@) is None);
                            assert(spec_worksheet_xml(*sheet, shared@, styles@) is None);
                        }
                        let m = UNREGISTERED_SHARED_STRING.to_string();
                        proof {
                            assert(m@ == UNREGISTERED_SHARED_STRING@);
                        }
                        return Err(XlsxError::InvalidPart(m));
                    },
                    Some(x) => {
                        push_chars(&mut inner, &x);
                    },
                }
            }
            c += 1;
        }
        proof {
            assert(cells@.take(cells@.len() as int) =~= cells@);
            assert(rows@.take(j + 1).drop_last() =~= rows@.take(j as int));
        }
        push_text(&mut data, ROW_OPEN);
        push_chars(&mut data, &decimal_chars(r as u64 + 1));
        push_text(&mut data, TAG_END);
        push_chars(&mut data, &inner);
        push_text(&mut data, ROW_CLOSE);
        j += 1;
    }
    proof {
        assert(rows@.take(rows@.len() as int) =~= rows@);
    }
    let mut out: Vec<char> = Vec::new();
    push_text(&mut out, WORKSHEET_HEAD);
    let ghost before_dimension = out@;
    match (sheet.metadata.row_count, sheet.metadata.column_count) {
        (Some(rc), Some(cc)) => {
            if rc > 0 && cc > 0 {
                push_text(&mut out, DIMENSION_OPEN);
                let col = column_name(cc - 1);
                push_text(&mut out, col.as_str());
                push_chars(&mut out, &decimal_chars(rc as u64));
                push_text(&mut out, EMPTY_CLOSE);
            }
        },
        _ => {},
    }
    proof {
        assert(out@ =~= before_dimension + dimension_xml(sheet.metadata));
    }
    let ghost before_pane = out@;
    let f = sheet.metadata.freeze;
    if !(f.rows == 0 && f.columns == 0) {
        push_text(&mut out, PANE_OPEN);
        if f.columns > 0 {
            push_text(&mut out, X_SPLIT);
            push_chars(&mut out, &decimal_chars(f.columns as u64));
            push_text(&mut out, QUOTE);
        }
        if f.rows > 0 {
            push_text(&mut out, Y_SPLIT);
            push_chars(&mut out, &decimal_chars(f.rows as u64));
            push_text(&mut out, QUOTE);
        }
        push_text(&mut out, TOP_LEFT);
        let col = column_name(f.columns);
        push_text(&mut out, col.as_str());
        push_chars(&mut out, &decimal_chars(f.rows as u64 + 1));
        push_text(&mut out, PANE_CLOSE);
    }
    proof {
        assert(out@ =~= before_pane + pane_xml(sheet.metadata.freeze));
    }
    push_text(&mut out, SHEET_DATA_OPEN);
    push_chars(&mut out, &data);
    push_text(&mut out, SHEET_DATA_CLOSE);
    let ghost before_merges = out@;
    push_chars(&mut out, &merges_chars(&sheet.merged_ranges));
    push_text(&mut out, WORKSHEET_CLOSE);
    proof {
        assert(out@ =~= WORKSHEET_HEAD@ + dimension_xml(sheet.metadata) + pane_xml(sheet.metadata.freeze)
            + SHEET_DATA_OPEN@ + data@ + SHEET_DATA_CLOSE@ + merges_xml(sheet.merged_ranges@) + WORKSHEET_CLOSE@);
    }
    Ok(string_of(&out))
}

pub const WORKBOOK_HEAD: &'static str = "<?xml version=\"1.0\" encoding=\"UTF-8\" standalone=\"yes\"?><workbook xmlns=\"http://schemas.openxmlformats.org/spreadsheetml/2006/main\" xmlns:r=\"http://schemas.openxmlformats.org/officeDocument/2006/relationships\"><bookViews><workbookView/></bookViews><sheets>";
pub const WORKBOOK_CLOSE: &'static str = "</sheets></workbook>";
pub const SHEET_NAME_OPEN: &'static str = "<sheet name=\"";
pub const SHEET_ID_OPEN: &'static str = "\" sheetId=\"";
pub const SHEET_REL_OPEN: &'static str = "\" r:id=\"rId";
pub const SHEET_CLOSE: &'static str = "\" />";

/// The `<sheet>` entries of the first `n` sheets, numbered from one.
pub open spec fn sheet_entries(sheets: Seq<SheetModel>, n: nat) -> Seq<char>
    decreases n,
{
    if n == 0 {
        Seq::empty()
    } else {
        sheet_entries(sheets, (n - 1) as nat) + SHEET_NAME_OPEN@ + escaped(sheets[n - 1].name@) + SHEET_ID_OPEN@
            + decimal(n) + SHEET_REL_OPEN@ + decimal(n) + SHEET_CLOSE@
    }
}

/// The workbook part: the sheets in order, each with its escaped name, its
/// number and the relationship of its worksheet part.
pub fn workbook_xml(model: &SpreadsheetModel) -> (res: String)
    ensures
        res@ == WORKBOOK_HEAD@ + sheet_entries(model.sheets@, model.sheets@.len()) + WORKBOOK_CLOSE@,
{
    let mut out: Vec<char> = Vec::new();
    push_text(&mut out, WORKBOOK_HEAD);
    let mut k: usize = 0;
    while k < model.sheets.len()
        invariant
            k <= model.sheets@.len(),
            out@ == WORKBOOK_HEAD@ + sheet_entries(model.sheets@, k as nat),
        decreases model.sheets@.len() - k,
    {
        push_text(&mut out, SHEET_NAME_OPEN);
        let name = xml_escape(model.sheets[k].name.as_str());
        push_text(&mut out, name.as_str());
        push_text(&mut out, SHEET_ID_OPEN);
        let number = decimal_chars(k as u64 + 1);
        push_chars(&mut out, &number);
        push_text(&mut out, SHEET_REL_OPEN);
        push_chars(&mut out, &number);
        push_text(&mut out, SHEET_CLOSE);
        k += 1;
        proof {
            assert(out@ =~= WORKBOOK_HEAD@ + sheet_entries(model.sheets@, k as nat));
        }
    }
    push_text(&mut out, WORKBOOK_CLOSE);
    string_of(&out)
}

/// `t` occurs in `a + t + b`.
proof fn lemma_infix_middle(a: Seq<char>, t: Seq<char>, b: Seq<char>)
    ensures
        crate::xlsx::has_infix(a + t + b, t),
{
    let w = a + t + b;
    assert(w.subrange(a.len() as int, (a.len() + t.len()) as int) =~= t);
}

/// `t` occurs in `a + s + b` wherever it occurs in `s`.
proof fn lemma_infix_embed(a: Seq<char>, s: Seq<char>, b: Seq<char>, t: Seq<char>)
    requires
        crate::xlsx::has_infix(s, t),
    ensures
        crate::xlsx::has_infix(a + s + b, t),
{
    let i = choose|i: int| 0 <= i && i + t.len() <= s.len() && #[trigger] s.subrange(i, i + t.len()) == t;
    let w = a + s + b;
    assert(w.subrange(a.len() + i, a.len() + i + t.len()) =~= s.subrange(i, i + t.len()));
}

/// The pane of a frozen band splits at `xSplit` equal to the frozen columns
/// and at `ySplit` equal to the frozen rows (each when above zero), and its
/// top-left cell is the first cell outside the band.
pub proof fn law_pane_records_frozen_band(f: FreezePane)
    ensures
        f.columns > 0 ==> crate::xlsx::has_infix(pane_xml(f), X_SPLIT@ + decimal(f.columns as nat) + QUOTE@),
        f.rows > 0 ==> crate::xlsx::has_infix(pane_xml(f), Y_SPLIT@ + decimal(f.rows as nat) + QUOTE@),
        (f.rows > 0 || f.columns > 0) ==> crate::xlsx::has_infix(
            pane_xml(f),
            TOP_LEFT@ + a1_text(f.rows as nat, f.columns as nat) + PANE_CLOSE@,
        ),
{
    if f.rows > 0 || f.columns > 0 {
        let xs = if f.columns > 0 { X_SPLIT@ + decimal(f.columns as nat) + QUOTE@ } else { Seq::empty() };
        let ys = if f.rows > 0 { Y_SPLIT@ + decimal(f.rows as nat) + QUOTE@ } else { Seq::empty() };
        let tl = TOP_LEFT@ + a1_text(f.rows as nat, f.columns as nat) + PANE_CLOSE@;
        assert(tl =~= TOP_LEFT@ + col_name(f.columns as nat) + decimal(f.rows as nat + 1) + PANE_CLOSE@);
        let pane = pane_xml(f);
        assert(pane =~= (PANE_OPEN@ + xs + ys) + tl + Seq::empty());
        lemma_infix_middle(PANE_OPEN@ + xs + ys, tl, Seq::empty());
        assert(pane =~= PANE_OPEN@ + xs + (ys + tl));
        lemma_infix_middle(PANE_OPEN@, xs, ys + tl);
        assert(pane =~= (PANE_OPEN@ + xs) + ys + tl);
        lemma_infix_middle(PANE_OPEN@ + xs, ys, tl);
    }
}

/// The worksheet written for a sheet with a frozen band records the band,
/// so that reading its pane back gives the band: `xSplit` equal to the
/// frozen columns and `ySplit` equal to the frozen rows (each when above
/// zero), and a top-left cell that is the first cell outside the band.
pub proof fn law_worksheet_records_frozen_band(sheet: SheetModel, shared: Seq<String>, styles: Seq<(String, usize)>)
    ensures
        spec_worksheet_xml(sheet, shared, styles) matches Some(xml) ==> {
            let f = sheet.metadata.freeze;
            &&& f.columns > 0 ==> crate::xlsx::has_infix(xml, X_SPLIT@ + decimal(f.columns as nat) + QUOTE@)
            &&& f.rows > 0 ==> crate::xlsx::has_infix(xml, Y_SPLIT@ + decimal(f.rows as nat) + QUOTE@)
            &&& (f.rows > 0 || f.columns > 0) ==> crate::xlsx::has_infix(
                xml,
                TOP_LEFT@ + a1_text(f.rows as nat, f.columns as nat) + PANE_CLOSE@,
            )
        },
{
    if let Some(body) = rows_xml(rows_of(sheet.cells@), sheet.cells@, shared, styles) {
        let f = sheet.metadata.freeze;
        let head = WORKSHEET_HEAD@ + dimension_xml(sheet.metadata);
        let pane = pane_xml(f);
        let tail = SHEET_DATA_OPEN@ + body + SHEET_DATA_CLOSE@ + merges_xml(sheet.merged_ranges@) + WORKSHEET_CLOSE@;
        let xml = spec_worksheet_xml(sheet, shared, styles)->Some_0;
        assert(xml =~= head + pane + tail);
        law_pane_records_frozen_band(f);
        if f.columns > 0 {
            lemma_infix_embed(head, pane, tail, X_SPLIT@ + decimal(f.columns as nat) + QUOTE@);
        }
        if f.rows > 0 {
            lemma_infix_embed(head, pane, tail, Y_SPLIT@ + decimal(f.rows as nat) + QUOTE@);
        }
        if f.rows > 0 || f.columns > 0 {
            lemma_infix_embed(head, pane, tail, TOP_LEFT@ + a1_text(f.rows as nat, f.columns as nat) + PANE_CLOSE@);
        }
    }
}

} // verus!
