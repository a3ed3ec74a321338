//! Extraction of the cells a formula reads: A1 references, optionally
//! qualified by a (quoted) sheet name, and rectangular ranges between two
//! references. Text inside string literals is never a reference.

use vstd::prelude::*;
use crate::text::{is_alnum, is_alnum_exec, chars_of};
use crate::a1::{spec_cell_ref, parse_cell_ref};
use crate::address::{CellAddress, Addr, av, addr_lt, lemma_addr_order};
use crate::addr_set::{views, strictly_sorted, set_view, lists, merge_sorted, lemma_set_view_facts};
use crate::sheet_name::{SheetLookup, normalize, normalize_chars};

verus! {

/// Largest number of cells one range reference may expand to.
pub const MAX_RANGE_CELLS: u64 = 100000;

/// Why a formula's references could not be indexed.
#[derive(Debug, Clone, PartialEq, Eq)]
pub enum FormulaDependencyError {
    /// A sheet id or name collides, after normalisation, with another sheet.
    AmbiguousSheetName(String),
    /// A range reference covers more cells than the index accepts.
    RangeTooLarge(u64),
    /// Two formula cells share one address.
    DuplicateCell(CellAddress),
    /// The workbook breaks its schema: two sheets share an id, or two cells
    /// of a sheet share a position.
    Schema(String),
}

/// Characters allowed in an unquoted sheet name.
pub open spec fn is_sheet_char(c: char) -> bool {
    is_alnum(c) || c == '_' || c == '.' || c == '-' || c == ' '
}

pub fn is_sheet_char_exec(c: char) -> (res: bool)
    ensures
        res == is_sheet_char(c),
{
    is_alnum_exec(c) || c == '_' || c == '.' || c == '-' || c == ' '
}

pub open spec fn ident_before(s: Seq<char>, i: int) -> bool {
    0 < i <= s.len() && (is_alnum(s[i - 1]) || s[i - 1] == '_')
}

pub open spec fn ident_after(s: Seq<char>, i: int) -> bool {
    0 <= i < s.len() && (is_alnum(s[i]) || s[i] == '_')
}

/// Whether an identifier character stands just before `index`.
pub fn has_identifier_before(chars: &Vec<char>, index: usize) -> (res: bool)
    requires
        index <= chars@.len(),
    ensures
        res == ident_before(chars@, index as int),
{
    index > 0 && (is_alnum_exec(chars[index - 1]) || chars[index - 1] == '_')
}

/// Whether an identifier character stands at `index`.
pub fn has_identifier_after(chars: &Vec<char>, index: usize) -> (res: bool)
    ensures
        res == ident_after(chars@, index as int),
{
    index < chars.len() && (is_alnum_exec(chars[index]) || chars[index] == '_')
}

/// Position after a string literal whose body starts at `j`; `""` is an
/// escaped quote. An unterminated literal runs to the end.
pub open spec fn string_end(s: Seq<char>, j: int) -> int
    decreases s.len() - j,
{
    if j >= s.len() {
        j
    } else if s[j] == '"' {
        if j + 1 < s.len() && s[j + 1] == '"' {
            string_end(s, j + 2)
        } else {
            j + 1
        }
    } else {
        string_end(s, j + 1)
    }
}

pub proof fn lemma_string_end(s: Seq<char>, j: int)
    requires
        0 <= j <= s.len(),
    ensures
        j <= string_end(s, j) <= s.len(),
    decreases s.len() - j,
{
    if j < s.len() {
        if s[j] == '"' {
            if j + 1 < s.len() && s[j + 1] == '"' {
                lemma_string_end(s, j + 2);
            }
        } else {
            lemma_string_end(s, j + 1);
        }
    }
}

/// Skips the string literal that opens at `index`.
pub fn skip_string(chars: &Vec<char>, index: usize) -> (res: usize)
    requires
        index < chars@.len(),
    ensures
        res == string_end(chars@, index + 1),
        index < res <= chars@.len(),
{
    proof {
        lemma_string_end(chars@, index + 1);
    }
    let n = chars.len();
    let mut i = index + 1;
    while i < chars.len()
        invariant
            index < i <= chars@.len(),
            string_end(chars@, i as int) == string_end(chars@, index + 1),
        decreases chars@.len() - i,
    {
        if chars[i] == '"' {
            if i + 1 < chars.len() && chars[i + 1] == '"' {
                i += 2;
            } else {
                return i + 1;
            }
        } else {
            i += 1;
        }
    }
    i
}

/// A quoted sheet name whose body starts at `j`: `''` is an escaped quote and
/// the name must be closed by `'!`. Yields the name and the position after `!`.
pub open spec fn quoted_name(s: Seq<char>, j: int, acc: Seq<char>) -> Option<(Seq<char>, int)>
    decreases s.len() - j,
{
    if j < 0 || j >= s.len() {
        None
    } else if s[j] == '\'' {
        if j + 1 < s.len() && s[j + 1] == '\'' {
            quoted_name(s, j + 2, acc.push('\''))
        } else if j + 1 < s.len() && s[j + 1] == '!' {
            Some((acc, j + 2))
        } else {
            None
        }
    } else {
        quoted_name(s, j + 1, acc.push(s[j]))
    }
}

pub proof fn lemma_quoted_name(s: Seq<char>, j: int, acc: Seq<char>)
    requires
        0 <= j,
    ensures
        quoted_name(s, j, acc) matches Some((n, e)) ==> j < e <= s.len(),
    decreases s.len() - j,
{
    if j < s.len() {
        if s[j] == '\'' {
            if j + 1 < s.len() && s[j + 1] == '\'' {
                lemma_quoted_name(s, j + 2, acc.push('\''));
            }
        } else {
            lemma_quoted_name(s, j + 1, acc.push(s[j]));
        }
    }
}

/// Length of the run of unquoted sheet-name characters starting at `i`.
pub open spec fn sheet_char_run(s: Seq<char>, i: int) -> nat
    decreases s.len() - i,
{
    if 0 <= i < s.len() && is_sheet_char(s[i]) {
        1 + sheet_char_run(s, i + 1)
    } else {
        0
    }
}

pub proof fn lemma_sheet_char_run(s: Seq<char>, i: int)
    requires
        0 <= i <= s.len(),
    ensures
        i + sheet_char_run(s, i) <= s.len(),
        forall|k: int| i <= k < i + sheet_char_run(s, i) ==> is_sheet_char(#[trigger] s[k]),
        i + sheet_char_run(s, i) == s.len() || !is_sheet_char(s[i + sheet_char_run(s, i)]),
    decreases s.len() - i,
{
    if i < s.len() && is_sheet_char(s[i]) {
        lemma_sheet_char_run(s, i + 1);
    }
}

/// The sheet qualifier (`Name!` or `'Quoted name'!`) at `i`, with the
/// position after the `!`; `(None, i)` when there is none.
pub open spec fn sheet_prefix(s: Seq<char>, i: int) -> (Option<Seq<char>>, int) {
    if 0 <= i < s.len() && s[i] == '\'' {
        match quoted_name(s, i + 1, Seq::empty()) {
            Some((n, e)) => (Some(n), e),
            None => (None, i),
        }
    } else {
        let k = sheet_char_run(s, i) as int;
        if k > 0 && i + k < s.len() && s[i + k] == '!' {
            (Some(s.subrange(i, i + k)), i + k + 1)
        } else {
            (None, i)
        }
    }
}

pub proof fn lemma_sheet_prefix(s: Seq<char>, i: int)
    requires
        0 <= i <= s.len(),
    ensures
        sheet_prefix(s, i).0 is Some ==> i < sheet_prefix(s, i).1 <= s.len(),
        sheet_prefix(s, i).0 is None ==> sheet_prefix(s, i).1 == i,
{
    lemma_quoted_name(s, i + 1, Seq::empty());
}

/// Reads the sheet qualifier at `index`.
pub fn parse_sheet_prefix(chars: &Vec<char>, index: usize) -> (res: (Option<Vec<char>>, usize))
    requires
        index <= chars@.len(),
    ensures
        res.1 == sheet_prefix(chars@, index as int).1,
        match sheet_prefix(chars@, index as int).0 {
            Some(n) => res.0 matches Some(v) && v@ == n,
            None => res.0 is None,
        },
{
    let n = chars.len();
    if index < n && chars[index] == '\'' {
        let mut cursor = index + 1;
        let mut name: Vec<char> = Vec::new();
        while cursor < n
            invariant
                index < n == chars@.len(),
                chars@[index as int] == '\'',
                index < cursor <= n,
                quoted_name(chars@, cursor as int, name@) == quoted_name(
                    chars@,
                    index + 1,
                    Seq::empty(),
                ),
            decreases n - cursor,
        {
            if chars[cursor] == '\'' {
                if cursor + 1 < n && chars[cursor + 1] == '\'' {
                    name.push('\'');
                    cursor += 2;
                    continue;
                }
                if cursor + 1 < n && chars[cursor + 1] == '!' {
                    return (Some(name), cursor + 2);
                }
                return (None, index);
            }
            name.push(chars[cursor]);
            cursor += 1;
        }
        return (None, index);
    }
    let mut cursor = index;
    proof {
        lemma_sheet_char_run(chars@, index as int);
    }
    while cursor < n && is_sheet_char_exec(chars[cursor])
        invariant
            index <= cursor <= index + sheet_char_run(chars@, index as int),
            n == chars@.len(),
            index + sheet_char_run(chars@, index as int) <= n,
            forall|k: int|
                index <= k < index + sheet_char_run(chars@, index as int) ==> is_sheet_char(
                    #[trigger] chars@[k],
                ),
            index + sheet_char_run(chars@, index as int) == n || !is_sheet_char(
                chars@[index + sheet_char_run(chars@, index as int)],
            ),
        decreases n - cursor,
    {
        cursor += 1;
    }
    if cursor > index && cursor < n && chars[cursor] == '!' {
        let mut name: Vec<char> = Vec::new();
        let mut k = index;
        while k < cursor
            invariant
                index <= k <= cursor <= n == chars@.len(),
                name@ == chars@.subrange(index as int, k as int),
            decreases cursor - k,
        {
            name.push(chars[k]);
            proof {
                assert(chars@.subrange(index as int, k + 1) =~= chars@.subrange(index as int, k as int).push(chars@[k as int]));
            }
            k += 1;
        }
        return (Some(name), cursor + 1);
    }
    (None, index)
}

/// A reference token at `i`: the sheet qualifier, the 0-based row and column,
/// and the position after it. No token starts inside an identifier (unless it
/// is sheet-qualified) or runs on into one.
pub open spec fn ref_at(s: Seq<char>, i: int) -> Option<(Option<Seq<char>>, u32, u32, int)> {
    let (name, cs) = sheet_prefix(s, i);
    let idx = if name is Some { cs } else { i };
    match spec_cell_ref(s, idx) {
        None => None,
        Some((r, c, end)) => if (name is None && ident_before(s, idx)) || ident_after(s, end) {
            None
        } else {
            Some((name, r, c, end))
        },
    }
}

/// The second corner of a range: `:` followed by a cell reference at `end`.
pub open spec fn range_tail(s: Seq<char>, end: int) -> Option<(u32, u32, int)> {
    if 0 <= end < s.len() && s[end] == ':' {
        spec_cell_ref(s, end + 1)
    } else {
        None
    }
}

pub open spec fn abs_diff(a: int, b: int) -> int {
    if a >= b {
        a - b
    } else {
        b - a
    }
}

/// Cells a range covers, saturating at `u64::MAX`.
pub open spec fn range_count(r1: int, c1: int, r2: int, c2: int) -> int {
    let n = (abs_diff(r1, r2) + 1) * (abs_diff(c1, c2) + 1);
    if n > u64::MAX {
        u64::MAX as int
    } else {
        n
    }
}

/// The cells of the rectangle spanned by two corners on one sheet.
pub open spec fn rect(sheet: Seq<char>, r1: int, c1: int, r2: int, c2: int) -> Set<Addr> {
    Set::new(
        |x: Addr|
            x.0 == sheet && (if r1 <= r2 {
                r1 <= x.1 <= r2
            } else {
                r2 <= x.1 <= r1
            }) && (if c1 <= c2 {
                c1 <= x.2 <= c2
            } else {
                c2 <= x.2 <= c1
            }),
    )
}

/// The sheet a qualifier resolves to; an unqualified reference reads the
/// formula's own sheet, and an unknown sheet resolves to nothing.
pub open spec fn resolve(name: Option<Seq<char>>, current: Seq<char>, lookup: Map<Seq<char>, Seq<char>>) -> Option<Seq<char>> {
    match name {
        None => Some(current),
        Some(n) => if lookup.contains_key(normalize(n)) {
            Some(lookup[normalize(n)])
        } else {
            None
        },
    }
}

pub open spec fn add_all(a: Set<Addr>, r: Result<Set<Addr>, u64>) -> Result<Set<Addr>, u64> {
    match r {
        Ok(b) => Ok(a.union(b)),
        Err(e) => Err(e),
    }
}

pub proof fn lemma_range_tail(s: Seq<char>, end: int)
    requires
        0 <= end <= s.len(),
    ensures
        range_tail(s, end) matches Some((r, c, e)) ==> end < e <= s.len(),
{
    if 0 <= end < s.len() && s[end] == ':' {
        crate::a1::lemma_spec_cell_ref(s, end + 1);
    }
}

pub proof fn lemma_ref_at(s: Seq<char>, i: int)
    requires
        0 <= i < s.len(),
    ensures
        ref_at(s, i) matches Some((n, r, c, end)) ==> i < end <= s.len(),
        range_tail(s, i) matches Some((r, c, e)) ==> i < e <= s.len(),
{
    lemma_sheet_prefix(s, i);
    let (name, cs) = sheet_prefix(s, i);
    let idx = if name is Some { cs } else { i };
    crate::a1::lemma_spec_cell_ref(s, idx);
    crate::a1::lemma_spec_cell_ref(s, i + 1);
}

/// What the references of a formula from position `i` on denote: the set of
/// cells they read, or the cell count of the first range that is too large.
pub open spec fn scan(s: Seq<char>, i: int, current: Seq<char>, lookup: Map<Seq<char>, Seq<char>>) -> Result<Set<Addr>, u64>
    decreases s.len() - i,
{
    if i < 0 || i >= s.len() {
        Ok(Set::empty())
    } else if s[i] == '"' {
        proof {
            lemma_string_end(s, i + 1);
        }
        scan(s, string_end(s, i + 1), current, lookup)
    } else {
        proof {
            lemma_ref_at(s, i);
        }
        match ref_at(s, i) {
            None => scan(s, i + 1, current, lookup),
            Some((name, r, c, end)) => match resolve(name, current, lookup) {
                None => scan(s, end, current, lookup),
                Some(sheet) => {
                    proof {
                        lemma_range_tail(s, end);
                    }
                    match range_tail(s, end) {
                        Some((r2, c2, end2)) => {
                            let count = range_count(r as int, c as int, r2 as int, c2 as int);
                            if count > MAX_RANGE_CELLS {
                                Err(count as u64)
                            } else {
                                add_all(
                                    rect(sheet, r as int, c as int, r2 as int, c2 as int),
                                    scan(s, end2, current, lookup),
                                )
                            }
                        },
                        None => add_all(set![(sheet, r, c)], scan(s, end, current, lookup)),
                    }
                },
            },
        }
    }
}

/// The cells of the rectangle `[r_lo, r_hi] x [c_lo, c_hi]` on `sheet`, in order.
fn rect_cells(sheet: &String, r_lo: u32, c_lo: u32, r_hi: u32, c_hi: u32) -> (res: Vec<CellAddress>)
    requires
        r_lo <= r_hi,
        c_lo <= c_hi,
    ensures
        strictly_sorted(views(res@)),
        set_view(res@) == rect(sheet@, r_lo as int, c_lo as int, r_hi as int, c_hi as int),
{
    let ghost target = rect(sheet@, r_lo as int, c_lo as int, r_hi as int, c_hi as int);
    let mut out: Vec<CellAddress> = Vec::new();
    let mut row: u64 = r_lo as u64;
    while row <= r_hi as u64
        invariant
            r_lo <= row <= r_hi as int + 1,
            c_lo <= c_hi,
            strictly_sorted(views(out@)),
            forall|x: Addr|
                #[trigger] set_view(out@).contains(x) <==> (x.0 == sheet@ && r_lo <= x.1 < row
                    && c_lo <= x.2 <= c_hi),
        decreases r_hi as int + 1 - row,
    {
        let mut col: u64 = c_lo as u64;
        while col <= c_hi as u64
            invariant
                r_lo <= row <= r_hi,
                c_lo <= col <= c_hi as int + 1,
                strictly_sorted(views(out@)),
                forall|x: Addr|
                    #[trigger] set_view(out@).contains(x) <==> (x.0 == sheet@ && c_lo <= x.2 <= c_hi
                        && (r_lo <= x.1 < row || (x.1 == row && x.2 < col))),
            decreases c_hi as int + 1 - col,
        {
            let ghost before = out@;
            let a = CellAddress { sheet_id: sheet.clone(), row: row as u32, column: col as u32 };
            out.push(a);
            proof {
                lemma_addr_order();
                lemma_set_view_facts(before);
                lemma_set_view_facts(out@);
                assert(out@ == before.push(a));
                assert forall|p: int, q: int| 0 <= p < q < out@.len() implies addr_lt(
                    #[trigger] views(out@)[p],
                    #[trigger] views(out@)[q],
                ) by {
                    if q < before.len() {
                        assert(views(out@)[p] == views(before)[p]);
                        assert(views(out@)[q] == views(before)[q]);
                    } else {
                        assert(views(out@)[p] == av(before[p]));
                        assert(set_view(before).contains(av(before[p])));
                    }
                }
                assert forall|x: Addr|
                    #[trigger] set_view(out@).contains(x) <==> (x.0 == sheet@ && c_lo <= x.2 <= c_hi
                        && (r_lo <= x.1 < row || (x.1 == row && x.2 < col + 1))) by {
                    if set_view(out@).contains(x) {
                        let k = choose|k: int| 0 <= k < out@.len() && av(out@[k]) == x;
                        if k < before.len() {
                            assert(av(before[k]) == x);
                        }
                    }
                    if x.0 == sheet@ && c_lo <= x.2 <= c_hi && (r_lo <= x.1 < row || (x.1 == row
                        && x.2 < col + 1)) {
                        if x.1 == row && x.2 == col {
                            assert(av(out@[before.len() as int]) == x);
                        } else {
                            assert(set_view(before).contains(x));
                            let k = choose|k: int| 0 <= k < before.len() && av(before[k]) == x;
                            assert(av(out@[k]) == x);
                        }
                    }
                }
            }
            col += 1;
        }
        row += 1;
    }
    proof {
        assert(set_view(out@) =~= target);
    }
    out
}

proof fn lemma_add_all_assoc(a: Set<Addr>, b: Set<Addr>, r: Result<Set<Addr>, u64>)
    ensures
        add_all(a, add_all(b, r)) == add_all(a.union(b), r),
{
    if let Ok(x) = r {
        assert(a.union(b.union(x)) =~= a.union(b).union(x));
    }
}

/// What one step of the reference scanner found at a position.
enum ScanStep {
    /// Nothing is read here; scanning goes on at the position.
    Next(usize),
    /// These cells are read; scanning goes on at the position.
    Cells(Vec<CellAddress>, usize),
    /// A range of this many cells is too large.
    TooLarge(u64),
}

/// One step of the scanner at `index`.
fn scan_step(chars: &Vec<char>, index: usize, current_sheet: &str, lookup: &SheetLookup) -> (res: ScanStep)
    requires
        index < chars@.len(),
        lookup.keys_unique(),
    ensures
        match res {
            ScanStep::Next(j) => index < j <= chars@.len() && scan(
                chars@,
                index as int,
                current_sheet@,
                lookup.view(),
            ) == scan(chars@, j as int, current_sheet@, lookup.view()),
            ScanStep::Cells(v, j) => index < j <= chars@.len() && strictly_sorted(views(v@)) && scan(
                chars@,
                index as int,
                current_sheet@,
                lookup.view(),
            ) == add_all(set_view(v@), scan(chars@, j as int, current_sheet@, lookup.view())),
            ScanStep::TooLarge(c) => scan(chars@, index as int, current_sheet@, lookup.view())
                == Err::<Set<Addr>, u64>(c),
        },
{
    let n = chars.len();
    let ghost s = chars@;
    if chars[index] == '"' {
        return ScanStep::Next(skip_string(chars, index));
    }
    proof {
        lemma_ref_at(s, index as int);
        lemma_sheet_prefix(s, index as int);
    }
    let (sheet_name, cell_start) = parse_sheet_prefix(chars, index);
    let idx = if sheet_name.is_some() { cell_start } else { index };
    let (first, end) = match parse_cell_ref(chars, idx) {
        None => {
            return ScanStep::Next(index + 1);
        },
        Some(p) => p,
    };
    if sheet_name.is_none() && has_identifier_before(chars, idx) {
        return ScanStep::Next(index + 1);
    }
    if has_identifier_after(chars, end) {
        return ScanStep::Next(index + 1);
    }
    let sheet_id: Option<String> = match &sheet_name {
        None => Some(String::from_str(current_sheet)),
        Some(name) => {
            let key = normalize_chars(name);
            lookup.get(&key)
        },
    };
    let sheet_id = match sheet_id {
        None => {
            return ScanStep::Next(end);
        },
        Some(id) => id,
    };
    proof {
        lemma_range_tail(s, end as int);
    }
    if end < n && chars[end] == ':' {
        if let Some((second, range_end)) = parse_cell_ref(chars, end + 1) {
            let r_lo = if first.0 <= second.0 { first.0 } else { second.0 };
            let r_hi = if first.0 <= second.0 { second.0 } else { first.0 };
            let c_lo = if first.1 <= second.1 { first.1 } else { second.1 };
            let c_hi = if first.1 <= second.1 { second.1 } else { first.1 };
            let rows: u64 = (r_hi - r_lo) as u64 + 1;
            let columns: u64 = (c_hi - c_lo) as u64 + 1;
            let count: u64 = match rows.checked_mul(columns) {
                Some(c) => c,
                None => u64::MAX,
            };
            if count > MAX_RANGE_CELLS {
                return ScanStep::TooLarge(count);
            }
            let cells = rect_cells(&sheet_id, r_lo, c_lo, r_hi, c_hi);
            proof {
                assert(rect(sheet_id@, r_lo as int, c_lo as int, r_hi as int, c_hi as int) =~= rect(
                    sheet_id@,
                    first.0 as int,
                    first.1 as int,
                    second.0 as int,
                    second.1 as int,
                ));
            }
            return ScanStep::Cells(cells, range_end);
        }
    }
    let single = vec![CellAddress { sheet_id, row: first.0, column: first.1 }];
    proof {
        assert(views(single@) =~= seq![av(single@[0])]);
        lemma_set_view_facts(single@);
        assert(set_view(single@) =~= set![av(single@[0])]);
    }
    ScanStep::Cells(single, end)
}

/// The cells a formula reads, in address order, or the first range that is
/// too large to expand. `current_sheet` is the sheet of the formula cell.
#[verifier::rlimit(50)]
pub fn parse_references(formula: &str, current_sheet: &str, lookup: &SheetLookup) -> (res: Result<
    Vec<CellAddress>,
    FormulaDependencyError,
>)
    requires
        lookup.keys_unique(),
    ensures
        match scan(formula@, 0, current_sheet@, lookup.view()) {
            Ok(set) => res matches Ok(v) && lists(v@, set),
            Err(count) => res == Err::<Vec<CellAddress>, FormulaDependencyError>(
                FormulaDependencyError::RangeTooLarge(count),
            ),
        },
{
    let chars = chars_of(formula);
    let n = chars.len();
    let ghost s = chars@;
    let ghost cur = current_sheet@;
    let ghost lk = lookup.view();
    let mut references: Vec<CellAddress> = Vec::new();
    let mut index: usize = 0;
    proof {
        assert(set_view(references@) =~= Set::<Addr>::empty());
        if let Ok(x) = scan(s, 0, cur, lk) {
            assert(Set::<Addr>::empty().union(x) =~= x);
        }
    }
    while index < n
        invariant
            n == chars@.len(),
            s == chars@,
            s == formula@,
            cur == current_sheet@,
            lk == lookup.view(),
            lookup.keys_unique(),
            index <= n,
            strictly_sorted(views(references@)),
            scan(s, 0, cur, lk) == add_all(set_view(references@), scan(s, index as int, cur, lk)),
        decreases n - index,
    {
        match scan_step(&chars, index, current_sheet, lookup) {
            ScanStep::Next(j) => {
                index = j;
            },
            ScanStep::Cells(cells, j) => {
                proof {
                    lemma_add_all_assoc(set_view(references@), set_view(cells@), scan(s, j as int, cur, lk));
                }
                references = merge_sorted(&references, &cells);
                index = j;
            },
            ScanStep::TooLarge(c) => {
                proof {
                    assert(scan(s, index as int, cur, lk) == Err::<Set<Addr>, u64>(c));
                    assert(scan(s, 0, cur, lk) == Err::<Set<Addr>, u64>(c));
                    assert(s == formula@);
                }
                return Err(FormulaDependencyError::RangeTooLarge(c));
            },
        }
    }
    proof {
        assert(set_view(references@).union(Set::<Addr>::empty()) =~= set_view(references@));
    }
    Ok(references)
}

} // verus!
