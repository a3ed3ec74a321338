//! A1 cell notation: column letters in bijective base 26 followed by a
//! 1-based decimal row, as used by formulas and by XLSX cell references.

use vstd::prelude::*;
use crate::text::{
    all_alpha, all_digits, alpha_run, decimal, digit_run, digits_value, is_alpha, is_alpha_exec,
    is_digit, is_digit_exec, is_upper, lemma_alpha_run_facts, lemma_digit_run_facts,
    lemma_digits_value_monotone, lemma_digits_value_push, lemma_letters_value_monotone,
    lemma_letters_value_push, letter_value, letters_value, upper_exec, chars_of, lemma_alpha_run,
    lemma_digit_run, lemma_decimal_value,
};

verus! {

/// Column letters of the 0-based column `n` (`0` is `A`, `26` is `AA`).
pub open spec fn col_name(n: nat) -> Seq<char>
    decreases n,
{
    if n < 26 {
        seq![(('A' as nat) + n) as char]
    } else {
        col_name((n / 26 - 1) as nat) + seq![(('A' as nat) + n % 26) as char]
    }
}

/// The A1 text of the 0-based cell `(row, column)`.
pub open spec fn a1_text(row: nat, column: nat) -> Seq<char> {
    col_name(column) + decimal(row + 1)
}

/// What a strict A1 reference (`letters` then `digits`, nothing else) denotes:
/// the 0-based `(row, column)`, or `None` when the text is not of that form or
/// either coordinate does not fit in `u32`.
pub open spec fn spec_parse_a1(s: Seq<char>) -> Option<(u32, u32)> {
    let k = alpha_run(s, 0) as int;
    let d = digit_run(s, k) as int;
    let column = letters_value(s.subrange(0, k));
    let row = digits_value(s.subrange(k, k + d));
    if k > 0 && d > 0 && k + d == s.len() && column <= u32::MAX && 1 <= row <= u32::MAX {
        Some(((row - 1) as u32, (column - 1) as u32))
    } else {
        None
    }
}

/// A formula cell reference starting at `i`: optional `$`, one to four
/// letters, optional `$`, one or more digits. Yields the 0-based
/// `(row, column)` and the index just past the reference.
pub open spec fn spec_cell_ref(s: Seq<char>, i: int) -> Option<(u32, u32, int)> {
    let c0 = if 0 <= i < s.len() && s[i] == '$' { i + 1 } else { i };
    let k = alpha_run(s, c0) as int;
    let r0 = if c0 + k < s.len() && s[c0 + k] == '$' { c0 + k + 1 } else { c0 + k };
    let d = digit_run(s, r0) as int;
    let column = letters_value(s.subrange(c0, c0 + k));
    let row = digits_value(s.subrange(r0, r0 + d));
    if 0 <= i <= s.len() && 1 <= k <= 4 && d > 0 && 1 <= row <= u32::MAX {
        Some(((row - 1) as u32, (column - 1) as u32, r0 + d))
    } else {
        None
    }
}

/// A cell reference ends after its start and inside the text.
pub proof fn lemma_spec_cell_ref(s: Seq<char>, i: int)
    requires
        0 <= i <= s.len(),
    ensures
        spec_cell_ref(s, i) matches Some((r, c, e)) ==> i < e <= s.len(),
{
    let c0 = if 0 <= i < s.len() && s[i] == '$' { i + 1 } else { i };
    lemma_alpha_run_facts(s, c0);
    let k = alpha_run(s, c0) as int;
    let r0 = if c0 + k < s.len() && s[c0 + k] == '$' { c0 + k + 1 } else { c0 + k };
    lemma_digit_run_facts(s, r0);
}

/// Number of leading `$` signs.
pub open spec fn dollar_run(s: Seq<char>, i: int) -> nat
    decreases s.len() - i,
{
    if 0 <= i < s.len() && s[i] == '$' {
        1 + dollar_run(s, i + 1)
    } else {
        0
    }
}

/// After any number of leading `$`: one to four letters, then one or more
/// digits and nothing else.
pub open spec fn spec_looks_like_reference(s: Seq<char>) -> bool {
    let p = dollar_run(s, 0) as int;
    let k = alpha_run(s, p) as int;
    let rest = s.subrange(p + k, s.len() as int);
    1 <= k <= 4 && rest.len() > 0 && all_digits(rest)
}

/// A whole-string reference: optional `$`, one to four letters, optional `$`,
/// then only digits (at least one).
pub open spec fn spec_parse_reference(s: Seq<char>) -> Option<(u32, u32)> {
    let c0: int = if s.len() > 0 && s[0] == '$' { 1 } else { 0 };
    let k = alpha_run(s, c0) as int;
    let r0 = if c0 + k < s.len() && s[c0 + k] == '$' { c0 + k + 1 } else { c0 + k };
    let rest = s.subrange(r0, s.len() as int);
    let column = letters_value(s.subrange(c0, c0 + k));
    let row = digits_value(rest);
    if 1 <= k <= 4 && rest.len() > 0 && all_digits(rest) && 1 <= row <= u32::MAX {
        Some(((row - 1) as u32, (column - 1) as u32))
    } else {
        None
    }
}

/// An upper-case letter built from its offset carries that offset.
pub proof fn lemma_letter_char(k: nat)
    requires
        k < 26,
    ensures
        letter_value((('A' as nat) + k) as char) == k + 1,
        is_upper((('A' as nat) + k) as char),
        is_alpha((('A' as nat) + k) as char),
{
}

pub proof fn lemma_col_name(n: nat)
    ensures
        letters_value(col_name(n)) == n + 1,
        all_alpha(col_name(n)),
        forall|i: int| 0 <= i < col_name(n).len() ==> is_upper(#[trigger] col_name(n)[i]),
        col_name(n).len() >= 1,
    decreases n,
{
    lemma_letter_char(n % 26);
    if n < 26 {
        assert(n % 26 == n);
        let c = (('A' as nat) + n) as char;
        assert(seq![c].drop_last() =~= Seq::<char>::empty());
        assert(letters_value(seq![c]) == letters_value(Seq::<char>::empty()) * 26 + letter_value(c));
    } else {
        let m = (n / 26 - 1) as nat;
        lemma_col_name(m);
        let c = (('A' as nat) + n % 26) as char;
        lemma_letters_value_push(col_name(m), c);
        assert(col_name(n) =~= col_name(m).push(c));
        assert((m + 1) * 26 + n % 26 == n);
    }
}

/// Letters of a 0-based column, `A` for 0; the inverse of the letter value.
pub fn column_letters(column: u64) -> (res: Vec<char>)
    ensures
        res@ == col_name(column as nat),
{
    let mut name: Vec<char> = Vec::new();
    let mut current: u64 = column;
    loop
        invariant
            col_name(column as nat) == col_name(current as nat) + name@,
        decreases current,
    {
        let letter: u8 = 65u8 + (current % 26) as u8;
        let c = letter as char;
        let ghost old_name = name@;
        name.insert(0, c);
        assert(name@ == seq![c] + old_name);
        if current < 26 {
            assert(col_name(current as nat) == seq![c]);
            assert(col_name(column as nat) =~= name@);
            return name;
        }
        let next: u64 = current / 26 - 1;
        assert(col_name(current as nat) == col_name(next as nat) + seq![c]);
        assert(col_name(column as nat) =~= col_name(next as nat) + name@);
        current = next;
    }
}

/// Parses a strict A1 reference such as `B12` or `xfd3` into the 0-based
/// `(row, column)`.
pub fn parse_a1_chars(s: &Vec<char>) -> (res: Option<(u32, u32)>)
    ensures
        res == spec_parse_a1(s@),
{
    let n = s.len();
    let mut index: usize = 0;
    let mut column: u64 = 0;
    proof {
        lemma_alpha_run_facts(s@, 0);
    }
    while index < n && is_alpha_exec(s[index])
        invariant
            n == s@.len(),
            0 <= index <= alpha_run(s@, 0),
            alpha_run(s@, 0) <= n,
            forall|k: int| 0 <= k < alpha_run(s@, 0) ==> is_alpha(#[trigger] s@[k]),
            alpha_run(s@, 0) == n || !is_alpha(s@[alpha_run(s@, 0) as int]),
            column == letters_value(s@.subrange(0, index as int)),
            column <= u32::MAX,
        decreases n - index,
    {
        let c = s[index];
        let v = (upper_exec(c) as u32 - 64) as u64;
        proof {
            lemma_letters_value_push(s@.subrange(0, index as int), c);
            assert(s@.subrange(0, index as int).push(c) =~= s@.subrange(0, index + 1));
        }
        let next = column * 26 + v;
        if next > 4294967295 {
            proof {
                let k = alpha_run(s@, 0) as int;
                let t = s@.subrange(0, k);
                assert(all_alpha(t));
                lemma_letters_value_monotone(t, index + 1);
                assert(t.take(index + 1) =~= s@.subrange(0, index + 1));
            }
            return None;
        }
        column = next;
        index += 1;
    }
    let row_start = index;
    let mut row: u64 = 0;
    proof {
        lemma_digit_run_facts(s@, row_start as int);
    }
    while index < n && is_digit_exec(s[index])
        invariant
            n == s@.len(),
            row_start == alpha_run(s@, 0),
            row_start <= index <= row_start + digit_run(s@, row_start as int),
            row_start + digit_run(s@, row_start as int) <= n,
            forall|k: int|
                row_start <= k < row_start + digit_run(s@, row_start as int) ==> is_digit(
                    #[trigger] s@[k],
                ),
            row_start + digit_run(s@, row_start as int) == n || !is_digit(
                s@[row_start + digit_run(s@, row_start as int)],
            ),
            row == digits_value(s@.subrange(row_start as int, index as int)),
            row <= u32::MAX,
            column == letters_value(s@.subrange(0, row_start as int)),
            column <= u32::MAX,
        decreases n - index,
    {
        let c = s[index];
        let v = (c as u32 - 48) as u64;
        proof {
            lemma_digits_value_push(s@.subrange(row_start as int, index as int), c);
            assert(s@.subrange(row_start as int, index as int).push(c) =~= s@.subrange(
                row_start as int,
                index + 1,
            ));
        }
        let next = row * 10 + v;
        if next > 4294967295 {
            proof {
                let d = digit_run(s@, row_start as int) as int;
                let t = s@.subrange(row_start as int, row_start + d);
                assert(all_digits(t));
                lemma_digits_value_monotone(t, index + 1 - row_start);
                assert(t.take(index + 1 - row_start) =~= s@.subrange(row_start as int, index + 1));
            }
            return None;
        }
        row = next;
        index += 1;
    }
    proof {
        if row_start > 0 {
            let t = s@.subrange(0, row_start as int);
            assert(all_alpha(t));
            lemma_letters_value_monotone(t, 0);
        }
    }
    if index == 0 || row_start == index || index != n || row == 0 || column == 0 {
        return None;
    }
    Some(((row - 1) as u32, (column - 1) as u32))
}

/// Largest value a run of `n` column letters can have.
pub open spec fn letters_bound(n: nat) -> int
    decreases n,
{
    if n == 0 {
        0
    } else {
        (letters_bound((n - 1) as nat) + 1) * 26
    }
}

pub proof fn lemma_letters_bound_values()
    ensures
        letters_bound(0) == 0,
        letters_bound(1) == 26,
        letters_bound(2) == 702,
        letters_bound(3) == 18278,
        letters_bound(4) == 475254,
{
    reveal_with_fuel(letters_bound, 5);
}

pub proof fn lemma_letters_bound(t: Seq<char>)
    requires
        all_alpha(t),
    ensures
        0 <= letters_value(t) <= letters_bound(t.len()),
    decreases t.len(),
{
    if t.len() > 0 {
        let u = t.drop_last();
        assert(all_alpha(u)) by {
            assert forall|i: int| 0 <= i < u.len() implies is_alpha(#[trigger] u[i]) by {
                assert(u[i] == t[i]);
            }
        }
        assert(is_alpha(t[t.len() - 1]));
        lemma_letters_bound(u);
    }
}

/// End of the letter run that starts at `i`.
pub fn alpha_run_end(s: &Vec<char>, i: usize) -> (e: usize)
    requires
        i <= s@.len(),
    ensures
        e == i + alpha_run(s@, i as int),
        e <= s@.len(),
        forall|k: int| i <= k < e ==> is_alpha(#[trigger] s@[k]),
        e == s@.len() || !is_alpha(s@[e as int]),
{
    proof {
        lemma_alpha_run_facts(s@, i as int);
    }
    let mut e = i;
    while e < s.len() && is_alpha_exec(s[e])
        invariant
            i <= e <= i + alpha_run(s@, i as int),
            i + alpha_run(s@, i as int) <= s@.len(),
            forall|k: int| i <= k < i + alpha_run(s@, i as int) ==> is_alpha(#[trigger] s@[k]),
            i + alpha_run(s@, i as int) == s@.len() || !is_alpha(s@[i + alpha_run(s@, i as int)]),
        decreases s@.len() - e,
    {
        e += 1;
    }
    e
}

/// End of the digit run that starts at `i`.
pub fn digit_run_end(s: &Vec<char>, i: usize) -> (e: usize)
    requires
        i <= s@.len(),
    ensures
        e == i + digit_run(s@, i as int),
        e <= s@.len(),
        forall|k: int| i <= k < e ==> is_digit(#[trigger] s@[k]),
        e == s@.len() || !is_digit(s@[e as int]),
{
    proof {
        lemma_digit_run_facts(s@, i as int);
    }
    let mut e = i;
    while e < s.len() && is_digit_exec(s[e])
        invariant
            i <= e <= i + digit_run(s@, i as int),
            i + digit_run(s@, i as int) <= s@.len(),
            forall|k: int| i <= k < i + digit_run(s@, i as int) ==> is_digit(#[trigger] s@[k]),
            i + digit_run(s@, i as int) == s@.len() || !is_digit(s@[i + digit_run(s@, i as int)]),
        decreases s@.len() - e,
    {
        e += 1;
    }
    e
}

/// Value of at most four column letters.
pub fn short_letters_value(s: &Vec<char>, a: usize, b: usize) -> (v: u32)
    requires
        a <= b <= s@.len(),
        b - a <= 4,
        forall|k: int| a <= k < b ==> is_alpha(#[trigger] s@[k]),
    ensures
        v == letters_value(s@.subrange(a as int, b as int)),
        v <= letters_bound(4),
{
    let mut v: u32 = 0;
    let mut i = a;
    while i < b
        invariant
            a <= i <= b <= s@.len(),
            b - a <= 4,
            forall|k: int| a <= k < b ==> is_alpha(#[trigger] s@[k]),
            v == letters_value(s@.subrange(a as int, i as int)),
            v <= letters_bound((i - a) as nat),
        decreases b - i,
    {
        let c = s[i];
        proof {
            lemma_letters_value_push(s@.subrange(a as int, i as int), c);
            assert(s@.subrange(a as int, i as int).push(c) =~= s@.subrange(a as int, i + 1));
            assert(letters_bound((i + 1 - a) as nat) == (letters_bound((i - a) as nat) + 1) * 26);
            lemma_letters_bound_values();
        }
        v = v * 26 + (upper_exec(c) as u32 - 64);
        i += 1;
    }
    proof {
        lemma_letters_bound_values();
    }
    v
}

/// Value of a digit run, or `None` when it does not fit in `u32`.
pub fn digits_value_u32(s: &Vec<char>, a: usize, b: usize) -> (res: Option<u32>)
    requires
        a <= b <= s@.len(),
        forall|k: int| a <= k < b ==> is_digit(#[trigger] s@[k]),
    ensures
        digits_value(s@.subrange(a as int, b as int)) <= u32::MAX <==> res is Some,
        res matches Some(v) ==> v == digits_value(s@.subrange(a as int, b as int)),
{
    let mut v: u64 = 0;
    let mut i = a;
    while i < b
        invariant
            a <= i <= b <= s@.len(),
            forall|k: int| a <= k < b ==> is_digit(#[trigger] s@[k]),
            v == digits_value(s@.subrange(a as int, i as int)),
            v <= u32::MAX,
        decreases b - i,
    {
        let c = s[i];
        proof {
            lemma_digits_value_push(s@.subrange(a as int, i as int), c);
            assert(s@.subrange(a as int, i as int).push(c) =~= s@.subrange(a as int, i + 1));
        }
        let next = v * 10 + (c as u32 - 48) as u64;
        if next > 4294967295 {
            proof {
                let t = s@.subrange(a as int, b as int);
                assert(all_digits(t));
                lemma_digits_value_monotone(t, i + 1 - a);
                assert(t.take(i + 1 - a) =~= s@.subrange(a as int, i + 1));
            }
            return None;
        }
        v = next;
        i += 1;
    }
    Some(v as u32)
}

/// Reads a formula cell reference such as `$B$12` at `index`.
pub fn parse_cell_ref(chars: &Vec<char>, index: usize) -> (res: Option<((u32, u32), usize)>)
    requires
        index <= chars@.len(),
    ensures
        match spec_cell_ref(chars@, index as int) {
            Some((row, column, end)) => res == Some(((row, column), end as usize)),
            None => res is None,
        },
{
    let mut cursor = index;
    if cursor < chars.len() && chars[cursor] == '$' {
        cursor += 1;
    }
    let column_start = cursor;
    let column_end = alpha_run_end(chars, column_start);
    if column_end == column_start || column_end - column_start > 4 {
        return None;
    }
    cursor = column_end;
    if cursor < chars.len() && chars[cursor] == '$' {
        cursor += 1;
    }
    let row_start = cursor;
    let row_end = digit_run_end(chars, row_start);
    if row_start == row_end {
        return None;
    }
    let row = match digits_value_u32(chars, row_start, row_end) {
        Some(v) => v,
        None => return None,
    };
    if row == 0 {
        return None;
    }
    let column = short_letters_value(chars, column_start, column_end);
    proof {
        lemma_letters_value_monotone(chars@.subrange(column_start as int, column_end as int), 0);
    }
    Some(((row - 1, column - 1), row_end))
}

/// A whole reference in formula text: one to four letters and then digits,
/// after any number of leading `$`.
pub fn looks_like_reference(value: &str) -> (res: bool)
    ensures
        res == spec_looks_like_reference(value@),
{
    let s = chars_of(value);
    let mut p: usize = 0;
    while p < s.len() && s[p] == '$'
        invariant
            p <= s@.len(),
            dollar_run(s@, 0) == p + dollar_run(s@, p as int),
        decreases s@.len() - p,
    {
        p += 1;
    }
    let e = alpha_run_end(&s, p);
    let letters = e - p;
    if letters == 0 || letters > 4 || e == s.len() {
        return false;
    }
    let d = digit_run_end(&s, e);
    proof {
        let rest = s@.subrange(e as int, s@.len() as int);
        if d < s.len() {
            assert(!is_digit(rest[d - e]));
        }
        assert(d == s.len() ==> all_digits(rest));
    }
    d == s.len()
}

/// A cell reference of a formula, optionally qualified by a sheet name.
#[derive(Debug, Clone, PartialEq, Eq)]
pub struct Reference {
    pub sheet: Option<String>,
    pub row: u32,
    pub column: u32,
}

/// Parses a complete reference such as `$AB$7` into a `Reference`.
pub fn parse_reference(value: &str, sheet: Option<String>) -> (res: Option<Reference>)
    ensures
        match spec_parse_reference(value@) {
            Some((row, column)) => res matches Some(r) && r.row == row && r.column == column
                && r.sheet == sheet,
            None => res is None,
        },
{
    let s = chars_of(value);
    let n = s.len();
    let c0: usize = if n > 0 && s[0] == '$' { 1 } else { 0 };
    let column_end = alpha_run_end(&s, c0);
    if column_end == c0 || column_end - c0 > 4 {
        return None;
    }
    let row_start = if column_end < n && s[column_end] == '$' { column_end + 1 } else { column_end };
    let d = digit_run_end(&s, row_start);
    if row_start == n || d != n {
        proof {
            let rest = s@.subrange(row_start as int, n as int);
            if d < n {
                assert(!is_digit(rest[d - row_start]));
            }
        }
        return None;
    }
    let row = match digits_value_u32(&s, row_start, n) {
        Some(v) => v,
        None => {
            proof {
                assert(s@.subrange(row_start as int, n as int) =~= s@.subrange(row_start as int, s@.len() as int));
            }
            return None;
        },
    };
    if row == 0 {
        return None;
    }
    let column = short_letters_value(&s, c0, column_end);
    proof {
        lemma_letters_value_monotone(s@.subrange(c0 as int, column_end as int), 0);
        let rest = s@.subrange(row_start as int, n as int);
        assert(all_digits(rest));
    }
    Some(Reference { sheet, row: row - 1, column: column - 1 })
}

/// Formatting a cell in A1 notation and reading it back gives the same cell.
pub proof fn law_a1_round_trip(row: u32, column: u32)
    requires
        row < u32::MAX,
        column < u32::MAX,
    ensures
        spec_parse_a1(a1_text(row as nat, column as nat)) == Some((row, column)),
{
    let l = col_name(column as nat);
    let d = decimal(row as nat + 1);
    let s = a1_text(row as nat, column as nat);
    lemma_col_name(column as nat);
    lemma_decimal_value(row as nat + 1);
    assert(!is_alpha(d[0]));
    assert forall|k: int| 0 <= k < l.len() implies is_alpha(#[trigger] s[k]) by {
        assert(s[k] == l[k]);
    }
    assert(s[l.len() as int] == d[0]);
    lemma_alpha_run(s, 0, l.len() as int);
    assert forall|k: int| l.len() <= k < s.len() implies is_digit(#[trigger] s[k]) by {
        assert(s[k] == d[k - l.len()]);
    }
    lemma_digit_run(s, l.len() as int, s.len() as int);
    assert(s.subrange(0, l.len() as int) =~= l);
    assert(s.subrange(l.len() as int, s.len() as int) =~= d);
}

} // verus!
