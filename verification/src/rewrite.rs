//! Formula text after a row or column insert or delete: every reference that
//! reads the edited sheet follows the cells it names, and a reference whose
//! cells are all deleted becomes `#REF!`.

use vstd::prelude::*;
use crate::a1::{col_name, column_letters, parse_cell_ref};
use crate::text::{decimal, decimal_chars, chars_of, push_chars, string_of, same_text};
use crate::remap::{SheetAxis, RemapOp, spec_remap_position};
use crate::refs::{
    string_end, lemma_string_end, skip_string, sheet_prefix, lemma_sheet_prefix, parse_sheet_prefix,
    ref_at, lemma_ref_at, range_tail, lemma_range_tail, resolve, has_identifier_before,
    has_identifier_after,
};
use crate::xlsx::{ref_shape, lemma_ref_shape};
use crate::sheet_name::{SheetLookup, normalize_chars};

verus! {

/// The text a reference takes when none of its cells is left.
pub open spec fn ref_error() -> Seq<char> {
    seq!['#', 'R', 'E', 'F', '!']
}

/// A cell reference with its `$` markers: column letters, then the 1-based row.
pub open spec fn ref_text(col_abs: bool, column: int, row_abs: bool, row: int) -> Seq<char> {
    (if col_abs { seq!['$'] } else { Seq::empty() }) + col_name(column as nat) + (if row_abs {
        seq!['$']
    } else {
        Seq::empty()
    }) + decimal((row + 1) as nat)
}

/// Inclusive bounds `lo <= hi` on the edited axis after the edit; `None`
/// when a delete removes all of them.
pub open spec fn shifted_bounds(lo: int, hi: int, op: RemapOp) -> Option<(int, int)> {
    match op {
        RemapOp::Insert(at, count) => if lo >= at {
            Some((lo + count, hi + count))
        } else if hi >= at {
            Some((lo, hi + count))
        } else {
            Some((lo, hi))
        },
        RemapOp::Delete(at, count) => {
            let band_end = at + count;
            if lo >= band_end {
                Some((lo - count, hi - count))
            } else if hi < at {
                Some((lo, hi))
            } else if lo >= at && hi < band_end {
                None
            } else if lo >= at {
                Some((at as int, hi - count))
            } else if hi >= band_end {
                Some((lo, hi - count))
            } else {
                Some((lo, at - 1))
            }
        },
    }
}

/// The single reference written at `i` for the cell `(r, c)` after the edit.
pub open spec fn moved_cell(s: Seq<char>, i: int, r: int, c: int, axis: SheetAxis, op: RemapOp) -> Seq<char> {
    let shape = ref_shape(s, i);
    match axis {
        SheetAxis::Row => match spec_remap_position(r, op) {
            None => ref_error(),
            Some(nr) => ref_text(shape.0, c, shape.3, nr),
        },
        SheetAxis::Column => match spec_remap_position(c, op) {
            None => ref_error(),
            Some(nc) => ref_text(shape.0, nc, shape.3, r),
        },
    }
}

/// The range written for the corners at `i` and `j` after the edit: the
/// lower bound on the edited axis goes to the first corner, and a range
/// whose corners meet is written as one cell.
pub open spec fn moved_range(
    s: Seq<char>,
    i: int,
    j: int,
    r1: int,
    c1: int,
    r2: int,
    c2: int,
    axis: SheetAxis,
    op: RemapOp,
) -> Seq<char> {
    let (p1, p2) = match axis {
        SheetAxis::Row => (r1, r2),
        SheetAxis::Column => (c1, c2),
    };
    let lo = if p1 <= p2 { p1 } else { p2 };
    let hi = if p1 <= p2 { p2 } else { p1 };
    match shifted_bounds(lo, hi, op) {
        None => ref_error(),
        Some((a, b)) => {
            let (nr1, nc1, nr2, nc2) = match axis {
                SheetAxis::Row => (a, c1, b, c2),
                SheetAxis::Column => (r1, a, r2, b),
            };
            corners_text(s, i, j, nr1, nc1, nr2, nc2)
        },
    }
}

/// The range between two corners, each with the markers of the reference at
/// `i` and at `j`; one cell when the corners meet.
pub open spec fn corners_text(s: Seq<char>, i: int, j: int, nr1: int, nc1: int, nr2: int, nc2: int) -> Seq<char> {
    let first = ref_text(ref_shape(s, i).0, nc1, ref_shape(s, i).3, nr1);
    if nr1 == nr2 && nc1 == nc2 {
        first
    } else {
        first + seq![':'] + ref_text(ref_shape(s, j).0, nc2, ref_shape(s, j).3, nr2)
    }
}

/// The formula text from position `i` on after the edit. Text in string
/// literals is kept; a reference (with its range tail) that resolves to the
/// `edited` sheet is moved, its sheet qualifier kept; every other reference
/// and character is kept as written.
pub open spec fn rewrite(
    s: Seq<char>,
    i: int,
    current: Seq<char>,
    lookup: Map<Seq<char>, Seq<char>>,
    edited: Seq<char>,
    axis: SheetAxis,
    op: RemapOp,
) -> Seq<char>
    decreases s.len() - i,
{
    if i < 0 || i >= s.len() {
        Seq::empty()
    } else if s[i] == '"' {
        proof {
            lemma_string_end(s, i + 1);
        }
        s.subrange(i, string_end(s, i + 1)) + rewrite(s, string_end(s, i + 1), current, lookup, edited, axis, op)
    } else {
        proof {
            lemma_ref_at(s, i);
        }
        match ref_at(s, i) {
            None => seq![s[i]] + rewrite(s, i + 1, current, lookup, edited, axis, op),
            Some((name, r, c, end)) => {
                let idx = if name is Some { sheet_prefix(s, i).1 } else { i };
                let hit = resolve(name, current, lookup) == Some(edited);
                proof {
                    lemma_range_tail(s, end);
                }
                match range_tail(s, end) {
                    Some((r2, c2, end2)) => (if hit {
                        s.subrange(i, idx) + moved_range(s, idx, end + 1, r as int, c as int, r2 as int, c2 as int, axis, op)
                    } else {
                        s.subrange(i, end2)
                    }) + rewrite(s, end2, current, lookup, edited, axis, op),
                    None => (if hit {
                        s.subrange(i, idx) + moved_cell(s, idx, r as int, c as int, axis, op)
                    } else {
                        s.subrange(i, end)
                    }) + rewrite(s, end, current, lookup, edited, axis, op),
                }
            },
        }
    }
}

/// The `$` markers of the reference at `i`: on the column, on the row.
fn markers(chars: &Vec<char>, i: usize) -> (res: (bool, bool))
    requires
        i < chars@.len(),
    ensures
        res.0 == ref_shape(chars@, i as int).0,
        res.1 == ref_shape(chars@, i as int).3,
{
    proof {
        lemma_ref_shape(chars@, i as int);
    }
    let n = chars.len();
    let cabs = chars[i] == '$';
    let l0 = if cabs { i + 1 } else { i };
    let e = crate::a1::alpha_run_end(chars, l0);
    (cabs, e < n && chars[e] == '$')
}

/// Appends a cell reference with its markers.
fn push_ref_text(out: &mut Vec<char>, col_abs: bool, column: u64, row_abs: bool, row: u64)
    requires
        row < u64::MAX,
    ensures
        final(out)@ == old(out)@ + ref_text(col_abs, column as int, row_abs, row as int),
{
    if col_abs {
        out.push('$');
    }
    push_chars(out, &column_letters(column));
    if row_abs {
        out.push('$');
    }
    push_chars(out, &decimal_chars(row + 1));
    proof {
        assert(final(out)@ =~= old(out)@ + ref_text(col_abs, column as int, row_abs, row as int));
    }
}

fn push_ref_error(out: &mut Vec<char>)
    ensures
        final(out)@ == old(out)@ + ref_error(),
{
    out.push('#');
    out.push('R');
    out.push('E');
    out.push('F');
    out.push('!');
    proof {
        assert(final(out)@ =~= old(out)@ + ref_error());
    }
}

/// Inclusive bounds after the edit, on `u64` so that an insert cannot leave it.
fn shift_bounds(lo: u32, hi: u32, op: RemapOp) -> (res: Option<(u64, u64)>)
    requires
        lo <= hi,
    ensures
        match shifted_bounds(lo as int, hi as int, op) {
            None => res is None,
            Some((a, b)) => res matches Some((x, y)) && x == a && y == b,
        },
{
    let lo = lo as u64;
    let hi = hi as u64;
    match op {
        RemapOp::Insert(at, count) => {
            let at = at as u64;
            let count = count as u64;
            if lo >= at {
                Some((lo + count, hi + count))
            } else if hi >= at {
                Some((lo, hi + count))
            } else {
                Some((lo, hi))
            }
        },
        RemapOp::Delete(at, count) => {
            let at = at as u64;
            let count = count as u64;
            let band_end = at + count;
            if lo >= band_end {
                Some((lo - count, hi - count))
            } else if hi < at {
                Some((lo, hi))
            } else if lo >= at && hi < band_end {
                None
            } else if lo >= at {
                Some((at, hi - count))
            } else if hi >= band_end {
                Some((lo, hi - count))
            } else {
                Some((lo, at - 1))
            }
        },
    }
}

/// Where a coordinate lands, on `u64`.
fn shift_position(p: u32, op: RemapOp) -> (res: Option<u64>)
    ensures
        match spec_remap_position(p as int, op) {
            None => res is None,
            Some(x) => res == Some(x as u64) && x == res->0,
        },
{
    let p = p as u64;
    match op {
        RemapOp::Insert(at, count) => Some(if p >= at as u64 { p + count as u64 } else { p }),
        RemapOp::Delete(at, count) => {
            if p >= at as u64 + count as u64 {
                Some(p - count as u64)
            } else if p >= at as u64 {
                None
            } else {
                Some(p)
            }
        },
    }
}

/// Appends `chars[a..b]`.
fn push_span(out: &mut Vec<char>, chars: &Vec<char>, a: usize, b: usize)
    requires
        a <= b <= chars@.len(),
    ensures
        final(out)@ == old(out)@ + chars@.subrange(a as int, b as int),
{
    let mut k = a;
    while k < b
        invariant
            a <= k <= b,
            b <= chars@.len(),
            out@ == old(out)@ + chars@.subrange(a as int, k as int),
        decreases b - k,
    {
        out.push(chars[k]);
        proof {
            assert(chars@.subrange(a as int, k + 1) =~= chars@.subrange(a as int, k as int).push(chars@[k as int]));
        }
        k += 1;
    }
}

/// Appends the single reference at `i` to the cell `(r, c)` after the edit.
fn push_moved_cell(out: &mut Vec<char>, chars: &Vec<char>, i: usize, r: u32, c: u32, axis: SheetAxis, op: RemapOp)
    requires
        i < chars@.len(),
    ensures
        final(out)@ == old(out)@ + moved_cell(chars@, i as int, r as int, c as int, axis, op),
{
    let (cabs, rabs) = markers(chars, i);
    match axis {
        SheetAxis::Row => match shift_position(r, op) {
            None => push_ref_error(out),
            Some(nr) => push_ref_text(out, cabs, c as u64, rabs, nr),
        },
        SheetAxis::Column => match shift_position(c, op) {
            None => push_ref_error(out),
            Some(nc) => push_ref_text(out, cabs, nc, rabs, r as u64),
        },
    }
}

/// Appends the range with corners at `i` and `j` after the edit.
fn push_moved_range(
    out: &mut Vec<char>,
    chars: &Vec<char>,
    i: usize,
    j: usize,
    first: (u32, u32),
    second: (u32, u32),
    axis: SheetAxis,
    op: RemapOp,
)
    requires
        i < chars@.len(),
        j < chars@.len(),
    ensures
        final(out)@ == old(out)@ + moved_range(
            chars@,
            i as int,
            j as int,
            first.0 as int,
            first.1 as int,
            second.0 as int,
            second.1 as int,
            axis,
            op,
        ),
{
    let (p1, p2) = match axis {
        SheetAxis::Row => (first.0, second.0),
        SheetAxis::Column => (first.1, second.1),
    };
    let lo = if p1 <= p2 { p1 } else { p2 };
    let hi = if p1 <= p2 { p2 } else { p1 };
    match shift_bounds(lo, hi, op) {
        None => push_ref_error(out),
        Some((a, b)) => {
            let (nr1, nc1, nr2, nc2): (u64, u64, u64, u64) = match axis {
                SheetAxis::Row => (a, first.1 as u64, b, second.1 as u64),
                SheetAxis::Column => (first.0 as u64, a, second.0 as u64, b),
            };
            push_corners(out, chars, i, j, nr1, nc1, nr2, nc2);
        },
    }
}

/// Appends the range between two corners with the markers at `i` and `j`.
fn push_corners(out: &mut Vec<char>, chars: &Vec<char>, i: usize, j: usize, nr1: u64, nc1: u64, nr2: u64, nc2: u64)
    requires
        i < chars@.len(),
        j < chars@.len(),
        nr1 < u64::MAX,
        nr2 < u64::MAX,
    ensures
        final(out)@ == old(out)@ + corners_text(chars@, i as int, j as int, nr1 as int, nc1 as int, nr2 as int, nc2 as int),
{
    let (cabs1, rabs1) = markers(chars, i);
    push_ref_text(out, cabs1, nc1, rabs1, nr1);
    if !(nr1 == nr2 && nc1 == nc2) {
        out.push(':');
        let (cabs2, rabs2) = markers(chars, j);
        push_ref_text(out, cabs2, nc2, rabs2, nr2);
    }
    proof {
        assert(final(out)@ =~= old(out)@ + corners_text(chars@, i as int, j as int, nr1 as int, nc1 as int, nr2 as int, nc2 as int));
    }
}

/// One step of the rewriter at `index`: the text it writes, and the position
/// where it goes on.
fn rewrite_step(
    chars: &Vec<char>,
    index: usize,
    current: &str,
    lookup: &SheetLookup,
    edited: &str,
    axis: SheetAxis,
    op: RemapOp,
) -> (res: (Vec<char>, usize))
    requires
        index < chars@.len(),
        lookup.keys_unique(),
    ensures
        index < res.1 <= chars@.len(),
        rewrite(chars@, index as int, current@, lookup.view(), edited@, axis, op) == res.0@ + rewrite(
            chars@,
            res.1 as int,
            current@,
            lookup.view(),
            edited@,
            axis,
            op,
        ),
{
    let n = chars.len();
    let ghost s = chars@;
    let mut out: Vec<char> = Vec::new();
    if chars[index] == '"' {
        let e = skip_string(chars, index);
        push_span(&mut out, chars, index, e);
        proof {
            assert(out@ =~= s.subrange(index as int, e as int));
        }
        return (out, e);
    }
    proof {
        lemma_ref_at(s, index as int);
        lemma_sheet_prefix(s, index as int);
    }
    let (sheet_name, cell_start) = parse_sheet_prefix(chars, index);
    let idx = if sheet_name.is_some() { cell_start } else { index };
    let (first, end) = match parse_cell_ref(chars, idx) {
        None => {
            out.push(chars[index]);
            proof {
                assert(out@ =~= seq![s[index as int]]);
            }
            return (out, index + 1);
        },
        Some(p) => p,
    };
    if (sheet_name.is_none() && has_identifier_before(chars, idx)) || has_identifier_after(chars, end) {
        out.push(chars[index]);
        proof {
            assert(out@ =~= seq![s[index as int]]);
        }
        return (out, index + 1);
    }
    let hit: bool = match &sheet_name {
        None => same_text(current, edited),
        Some(name) => {
            let key = normalize_chars(name);
            match lookup.get(&key) {
                None => false,
                Some(id) => same_text(id.as_str(), edited),
            }
        },
    };
    proof {
        lemma_range_tail(s, end as int);
    }
    let tail: Option<((u32, u32), usize)> = if end < n && chars[end] == ':' {
        parse_cell_ref(chars, end + 1)
    } else {
        None
    };
    match tail {
        Some((second, end2)) => {
            if hit {
                push_span(&mut out, chars, index, idx);
                push_moved_range(&mut out, chars, idx, end + 1, first, second, axis, op);
            } else {
                push_span(&mut out, chars, index, end2);
            }
            (out, end2)
        },
        None => {
            if hit {
                push_span(&mut out, chars, index, idx);
                push_moved_cell(&mut out, chars, idx, first.0, first.1, axis, op);
            } else {
                push_span(&mut out, chars, index, end);
            }
            (out, end)
        },
    }
}

/// A formula after a row or column edit of the sheet `edited`, written on the
/// sheet `current`: each reference into the edited sheet follows its cells.
pub fn rewrite_formula(
    formula: &str,
    current: &str,
    lookup: &SheetLookup,
    edited: &str,
    axis: SheetAxis,
    op: RemapOp,
) -> (res: String)
    requires
        lookup.keys_unique(),
    ensures
        res@ == rewrite(formula@, 0, current@, lookup.view(), edited@, axis, op),
{
    let chars = chars_of(formula);
    let n = chars.len();
    let ghost s = chars@;
    let ghost goal = rewrite(s, 0, current@, lookup.view(), edited@, axis, op);
    let mut out: Vec<char> = Vec::new();
    let mut index: usize = 0;
    while index < n
        invariant
            n == chars@.len(),
            s == chars@,
            s == formula@,
            lookup.keys_unique(),
            index <= n,
            goal == rewrite(s, 0, current@, lookup.view(), edited@, axis, op),
            goal == out@ + rewrite(s, index as int, current@, lookup.view(), edited@, axis, op),
        decreases n - index,
    {
        let (piece, next) = rewrite_step(&chars, index, current, lookup, edited, axis, op);
        proof {
            assert(out@ + (piece@ + rewrite(s, next as int, current@, lookup.view(), edited@, axis, op)) =~= (out@
                + piece@) + rewrite(s, next as int, current@, lookup.view(), edited@, axis, op));
        }
        push_chars(&mut out, &piece);
        index = next;
    }
    proof {
        assert(out@ + Seq::<char>::empty() =~= out@);
    }
    string_of(&out)
}

/// The bounds a range reference takes after an edit are exactly the hull of
/// the images of its surviving rows or columns: `None` when none survives;
/// otherwise both bounds are images of surviving positions of the range, and
/// every surviving position lands between them.
pub proof fn law_shifted_bounds_are_hull_of_survivors(lo: int, hi: int, op: RemapOp)
    requires
        lo <= hi,
    ensures
        match shifted_bounds(lo, hi, op) {
            None => forall|p: int| lo <= p <= hi ==> #[trigger] spec_remap_position(p, op) is None,
            Some((a, b)) => {
                &&& a <= b
                &&& exists|p: int| lo <= p <= hi && #[trigger] spec_remap_position(p, op) == Some(a)
                &&& exists|q: int| lo <= q <= hi && #[trigger] spec_remap_position(q, op) == Some(b)
                &&& forall|p: int|
                    lo <= p <= hi && #[trigger] spec_remap_position(p, op) is Some ==> a <= spec_remap_position(
                        p,
                        op,
                    ).unwrap() <= b
            },
        },
{
    match op {
        RemapOp::Insert(at, count) => {
            assert(spec_remap_position(lo, op) == Some(if lo >= at { lo + count } else { lo }));
            assert(spec_remap_position(hi, op) == Some(if hi >= at { hi + count } else { hi }));
        },
        RemapOp::Delete(at, count) => {
            let be = at + count;
            if lo >= be || hi < at {
                assert(spec_remap_position(lo, op) is Some);
                assert(spec_remap_position(hi, op) is Some);
            } else if lo >= at && hi < be {
            } else if lo >= at {
                assert(spec_remap_position(be, op) == Some(at as int));
                assert(spec_remap_position(hi, op) == Some(hi - count));
            } else if hi >= be {
                assert(spec_remap_position(lo, op) == Some(lo));
                assert(spec_remap_position(hi, op) == Some(hi - count));
            } else {
                assert(spec_remap_position(lo, op) == Some(lo));
                assert(spec_remap_position(at - 1, op) == Some(at - 1));
            }
        },
    }
}

} // verus!
