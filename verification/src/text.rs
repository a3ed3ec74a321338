//! Character classes, digit and letter runs, and the conversions between
//! `String` and `Vec<char>` that the scanners work on.

use vstd::prelude::*;

verus! {

pub open spec fn is_upper(c: char) -> bool {
    'A' <= c && c <= 'Z'
}

pub open spec fn is_lower(c: char) -> bool {
    'a' <= c && c <= 'z'
}

/// `char::is_ascii_alphabetic`.
pub open spec fn is_alpha(c: char) -> bool {
    is_upper(c) || is_lower(c)
}

/// `char::is_ascii_digit`.
pub open spec fn is_digit(c: char) -> bool {
    '0' <= c && c <= '9'
}

/// `char::is_ascii_alphanumeric`.
pub open spec fn is_alnum(c: char) -> bool {
    is_alpha(c) || is_digit(c)
}

/// `char::to_ascii_uppercase`.
pub open spec fn upper(c: char) -> char {
    if is_lower(c) {
        ((c as u32) - 32) as char
    } else {
        c
    }
}

/// `char::to_ascii_lowercase`.
pub open spec fn lower(c: char) -> char {
    if is_upper(c) {
        ((c as u32) + 32) as char
    } else {
        c
    }
}

/// Value of one column letter: `A`/`a` is 1, `Z`/`z` is 26.
pub open spec fn letter_value(c: char) -> int {
    (upper(c) as int) - ('A' as int) + 1
}

pub open spec fn digit_value(c: char) -> int {
    (c as int) - ('0' as int)
}

/// Bijective base-26 value of a run of column letters (`A` = 1, `AA` = 27).
pub open spec fn letters_value(s: Seq<char>) -> int
    decreases s.len(),
{
    if s.len() == 0 {
        0
    } else {
        letters_value(s.drop_last()) * 26 + letter_value(s.last())
    }
}

/// Decimal value of a run of digits; leading zeros are allowed.
pub open spec fn digits_value(s: Seq<char>) -> int
    decreases s.len(),
{
    if s.len() == 0 {
        0
    } else {
        digits_value(s.drop_last()) * 10 + digit_value(s.last())
    }
}

pub open spec fn all_alpha(s: Seq<char>) -> bool {
    forall|i: int| 0 <= i < s.len() ==> is_alpha(#[trigger] s[i])
}

pub open spec fn all_digits(s: Seq<char>) -> bool {
    forall|i: int| 0 <= i < s.len() ==> is_digit(#[trigger] s[i])
}

/// Length of the run of ASCII letters starting at `i`.
pub open spec fn alpha_run(s: Seq<char>, i: int) -> nat
    decreases s.len() - i,
{
    if 0 <= i < s.len() && is_alpha(s[i]) {
        1 + alpha_run(s, i + 1)
    } else {
        0
    }
}

/// Length of the run of ASCII digits starting at `i`.
pub open spec fn digit_run(s: Seq<char>, i: int) -> nat
    decreases s.len() - i,
{
    if 0 <= i < s.len() && is_digit(s[i]) {
        1 + digit_run(s, i + 1)
    } else {
        0
    }
}

/// Decimal rendering of a natural number, without leading zeros.
pub open spec fn decimal(n: nat) -> Seq<char>
    decreases n,
{
    if n < 10 {
        seq![(('0' as nat) + n) as char]
    } else {
        decimal(n / 10) + seq![(('0' as nat) + n % 10) as char]
    }
}

pub fn is_alpha_exec(c: char) -> (res: bool)
    ensures
        res == is_alpha(c),
{
    ('A' <= c && c <= 'Z') || ('a' <= c && c <= 'z')
}

pub fn is_digit_exec(c: char) -> (res: bool)
    ensures
        res == is_digit(c),
{
    '0' <= c && c <= '9'
}

pub fn is_alnum_exec(c: char) -> (res: bool)
    ensures
        res == is_alnum(c),
{
    is_alpha_exec(c) || is_digit_exec(c)
}

pub fn upper_exec(c: char) -> (res: char)
    ensures
        res == upper(c),
{
    if 'a' <= c && c <= 'z' {
        let v: u8 = ((c as u32) - 32) as u8;
        v as char
    } else {
        c
    }
}

/// The characters of `s`, in order.
pub fn chars_of(s: &str) -> (res: Vec<char>)
    ensures
        res@ == s@,
{
    broadcast use vstd::string::axiom_spec_iter;
    let mut out: Vec<char> = Vec::new();
    for c in it: s.chars()
        invariant
            it.seq() == s@,
            out@ == it.seq().take(it.index() as int),
            it.index() == it.seq().len() ==> out@ == s@,
    {
        proof {
            assert(it.seq().take(it.index() + 1) =~= it.seq().take(it.index() as int).push(c));
            assert(it.seq().take(it.seq().len() as int) =~= it.seq());
        }
        out.push(c);
    }
    out
}

/// The string whose characters are `v`, built by std's
/// `String::from_iter`, which appends each character in turn; the
/// contract claims that the string's characters are those of `v`, in order.
#[verifier::external_body]
pub(crate) fn string_of(v: &Vec<char>) -> (res: String)
    ensures
        res@ == v@,
{
    String::from_iter(v)
}

pub proof fn lemma_letters_value_push(s: Seq<char>, c: char)
    ensures
        letters_value(s.push(c)) == letters_value(s) * 26 + letter_value(c),
{
    assert(s.push(c).drop_last() =~= s);
}

pub proof fn lemma_digits_value_push(s: Seq<char>, c: char)
    ensures
        digits_value(s.push(c)) == digits_value(s) * 10 + digit_value(c),
{
    assert(s.push(c).drop_last() =~= s);
}

/// Letter runs have positive value and the value grows with the run.
pub proof fn lemma_letters_value_monotone(s: Seq<char>, k: int)
    requires
        all_alpha(s),
        0 <= k <= s.len(),
    ensures
        letters_value(s.take(k)) <= letters_value(s),
        s.len() > 0 ==> letters_value(s) >= 1,
    decreases s.len(),
{
    if s.len() > 0 {
        let t = s.drop_last();
        assert(all_alpha(t)) by {
            assert forall|i: int| 0 <= i < t.len() implies is_alpha(#[trigger] t[i]) by {
                assert(t[i] == s[i]);
            }
        }
        assert(is_alpha(s[s.len() - 1]));
        if k < s.len() {
            lemma_letters_value_monotone(t, k);
            assert(t.take(k) =~= s.take(k));
        } else {
            assert(s.take(k) =~= s);
        }
        if t.len() > 0 {
            lemma_letters_value_monotone(t, 0);
        }
    } else {
        assert(s.take(k) =~= s);
    }
}

/// Digit runs only grow when extended.
pub proof fn lemma_digits_value_monotone(s: Seq<char>, k: int)
    requires
        all_digits(s),
        0 <= k <= s.len(),
    ensures
        0 <= digits_value(s.take(k)) <= digits_value(s),
    decreases s.len(),
{
    if s.len() > 0 {
        let t = s.drop_last();
        assert(all_digits(t)) by {
            assert forall|i: int| 0 <= i < t.len() implies is_digit(#[trigger] t[i]) by {
                assert(t[i] == s[i]);
            }
        }
        assert(is_digit(s[s.len() - 1]));
        if k < s.len() {
            lemma_digits_value_monotone(t, k);
            assert(t.take(k) =~= s.take(k));
        } else {
            lemma_digits_value_monotone(t, 0);
            assert(s.take(k) =~= s);
        }
    } else {
        assert(s.take(k) =~= s);
    }
}

/// A digit character carries the value it was built from.
pub proof fn lemma_digit_char(k: nat)
    requires
        k < 10,
    ensures
        digit_value((('0' as nat) + k) as char) == k,
        is_digit((('0' as nat) + k) as char),
{
}

/// The decimal rendering reads back as the number it renders.
pub proof fn lemma_decimal_value(n: nat)
    ensures
        digits_value(decimal(n)) == n,
        all_digits(decimal(n)),
        decimal(n).len() >= 1,
        decimal(n)[0] != '0' || n == 0,
    decreases n,
{
    lemma_digit_char((n % 10) as nat);
    if n < 10 {
        lemma_digit_char(n);
        let c = (('0' as nat) + n) as char;
        assert(seq![c].drop_last() =~= Seq::<char>::empty());
        assert(decimal(n) == seq![c]);
        assert(digits_value(seq![c]) == digits_value(Seq::<char>::empty()) * 10 + digit_value(c));
    } else {
        lemma_decimal_value(n / 10);
        let d = decimal(n / 10);
        lemma_digits_value_push(d, (('0' as nat) + n % 10) as char);
        assert(decimal(n) == d.push((('0' as nat) + n % 10) as char));
        assert(decimal(n)[0] == d[0]);
    }
}

/// Characterises `alpha_run` by the run it measures.
pub proof fn lemma_alpha_run(s: Seq<char>, i: int, j: int)
    requires
        0 <= i <= j <= s.len(),
        forall|k: int| i <= k < j ==> is_alpha(#[trigger] s[k]),
        j == s.len() || !is_alpha(s[j]),
    ensures
        alpha_run(s, i) == j - i,
    decreases j - i,
{
    if i < j {
        lemma_alpha_run(s, i + 1, j);
    }
}

/// Characterises `digit_run` by the run it measures.
pub proof fn lemma_digit_run(s: Seq<char>, i: int, j: int)
    requires
        0 <= i <= j <= s.len(),
        forall|k: int| i <= k < j ==> is_digit(#[trigger] s[k]),
        j == s.len() || !is_digit(s[j]),
    ensures
        digit_run(s, i) == j - i,
    decreases j - i,
{
    if i < j {
        lemma_digit_run(s, i + 1, j);
    }
}

/// Every character of an alpha run is a letter and the run stops at a non-letter.
pub proof fn lemma_alpha_run_facts(s: Seq<char>, i: int)
    requires
        0 <= i <= s.len(),
    ensures
        i + alpha_run(s, i) <= s.len(),
        forall|k: int| i <= k < i + alpha_run(s, i) ==> is_alpha(#[trigger] s[k]),
        i + alpha_run(s, i) == s.len() || !is_alpha(s[i + alpha_run(s, i)]),
    decreases s.len() - i,
{
    if i < s.len() && is_alpha(s[i]) {
        lemma_alpha_run_facts(s, i + 1);
    }
}

/// Every character of a digit run is a digit and the run stops at a non-digit.
pub proof fn lemma_digit_run_facts(s: Seq<char>, i: int)
    requires
        0 <= i <= s.len(),
    ensures
        i + digit_run(s, i) <= s.len(),
        forall|k: int| i <= k < i + digit_run(s, i) ==> is_digit(#[trigger] s[k]),
        i + digit_run(s, i) == s.len() || !is_digit(s[i + digit_run(s, i)]),
    decreases s.len() - i,
{
    if i < s.len() && is_digit(s[i]) {
        lemma_digit_run_facts(s, i + 1);
    }
}


/// Decimal digits of `n`, most significant first.
pub fn decimal_chars(n: u64) -> (res: Vec<char>)
    ensures
        res@ == decimal(n as nat),
{
    let mut digits: Vec<char> = Vec::new();
    let mut current: u64 = n;
    loop
        invariant
            decimal(n as nat) == decimal(current as nat) + digits@,
        decreases current,
    {
        let c = ((48u8 + (current % 10) as u8) as char);
        let ghost before = digits@;
        digits.insert(0, c);
        assert(digits@ == seq![c] + before);
        if current < 10 {
            assert(decimal(current as nat) == seq![c]);
            assert(decimal(n as nat) =~= digits@);
            return digits;
        }
        let next: u64 = current / 10;
        assert(decimal(current as nat) == decimal(next as nat) + seq![c]);
        assert(decimal(n as nat) =~= decimal(next as nat) + digits@);
        current = next;
    }
}

/// Appends the characters of `s` to `out`.
pub fn push_text(out: &mut Vec<char>, s: &str)
    ensures
        final(out)@ == old(out)@ + s@,
{
    let cs = chars_of(s);
    let mut k: usize = 0;
    while k < cs.len()
        invariant
            k <= cs@.len(),
            cs@ == s@,
            out@ == old(out)@ + cs@.subrange(0, k as int),
        decreases cs@.len() - k,
    {
        out.push(cs[k]);
        proof {
            assert(cs@.subrange(0, k + 1) =~= cs@.subrange(0, k as int).push(cs@[k as int]));
        }
        k += 1;
    }
    proof {
        assert(cs@.subrange(0, cs@.len() as int) =~= cs@);
    }
}

/// Appends the characters of `s` to `out`.
pub fn push_chars(out: &mut Vec<char>, s: &Vec<char>)
    ensures
        final(out)@ == old(out)@ + s@,
{
    let mut k: usize = 0;
    while k < s.len()
        invariant
            k <= s@.len(),
            out@ == old(out)@ + s@.subrange(0, k as int),
        decreases s@.len() - k,
    {
        out.push(s[k]);
        proof {
            assert(s@.subrange(0, k + 1) =~= s@.subrange(0, k as int).push(s@[k as int]));
        }
        k += 1;
    }
    proof {
        assert(s@.subrange(0, s@.len() as int) =~= s@);
    }
}

/// Whether two texts are equal.
pub fn same_text(a: &str, b: &str) -> (res: bool)
    ensures
        res == (a@ == b@),
{
    let x = chars_of(a);
    let y = chars_of(b);
    if x.len() != y.len() {
        return false;
    }
    let mut k: usize = 0;
    while k < x.len()
        invariant
            x@ == a@,
            y@ == b@,
            x@.len() == y@.len(),
            k <= x@.len(),
            forall|j: int| 0 <= j < k ==> x@[j] == y@[j],
        decreases x@.len() - k,
    {
        if x[k] != y[k] {
            return false;
        }
        k += 1;
    }
    proof {
        assert(x@ =~= y@);
    }
    true
}

} // verus!
