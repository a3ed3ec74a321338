//! Canonical cell addresses and their total order (sheet id, then row, then
//! column; sheet ids compare character by character).

use vstd::prelude::*;
use crate::text::chars_of;

verus! {

/// A cell of a workbook: the sheet id and the 0-based row and column.
#[derive(Debug, Clone, PartialEq, Eq, Hash, PartialOrd, Ord)]
pub struct CellAddress {
    pub sheet_id: String,
    pub row: u32,
    pub column: u32,
}

/// Mathematical value of an address.
pub type Addr = (Seq<char>, u32, u32);

pub open spec fn av(a: CellAddress) -> Addr {
    (a.sheet_id@, a.row, a.column)
}

/// Lexicographic order of character sequences (a proper prefix comes first).
pub open spec fn seq_lt(a: Seq<char>, b: Seq<char>) -> bool
    decreases a.len(),
{
    if a.len() == 0 {
        b.len() > 0
    } else if b.len() == 0 {
        false
    } else if a[0] < b[0] {
        true
    } else if a[0] == b[0] {
        seq_lt(a.drop_first(), b.drop_first())
    } else {
        false
    }
}

/// The order of addresses: sheet id, then row, then column.
pub open spec fn addr_lt(x: Addr, y: Addr) -> bool {
    seq_lt(x.0, y.0) || (x.0 == y.0 && (x.1 < y.1 || (x.1 == y.1 && x.2 < y.2)))
}

pub proof fn lemma_seq_lt_irreflexive(a: Seq<char>)
    ensures
        !seq_lt(a, a),
    decreases a.len(),
{
    if a.len() > 0 {
        lemma_seq_lt_irreflexive(a.drop_first());
    }
}

pub proof fn lemma_seq_lt_transitive(a: Seq<char>, b: Seq<char>, c: Seq<char>)
    requires
        seq_lt(a, b),
        seq_lt(b, c),
    ensures
        seq_lt(a, c),
    decreases a.len(),
{
    if a.len() > 0 && b.len() > 0 && c.len() > 0 && a[0] == b[0] && b[0] == c[0] {
        lemma_seq_lt_transitive(a.drop_first(), b.drop_first(), c.drop_first());
    }
}

pub proof fn lemma_seq_lt_total(a: Seq<char>, b: Seq<char>)
    ensures
        a == b || seq_lt(a, b) || seq_lt(b, a),
    decreases a.len(),
{
    if a.len() > 0 && b.len() > 0 && a[0] == b[0] {
        lemma_seq_lt_total(a.drop_first(), b.drop_first());
        if a.drop_first() == b.drop_first() {
            assert(a =~= seq![a[0]] + a.drop_first());
            assert(b =~= seq![b[0]] + b.drop_first());
        }
    } else if a.len() == 0 && b.len() == 0 {
        assert(a =~= b);
    }
}

pub proof fn lemma_seq_lt_asymmetric(a: Seq<char>, b: Seq<char>)
    requires
        seq_lt(a, b),
    ensures
        !seq_lt(b, a),
{
    if seq_lt(b, a) {
        lemma_seq_lt_transitive(a, b, a);
        lemma_seq_lt_irreflexive(a);
    }
}

/// `addr_lt` is a strict total order.
pub proof fn lemma_addr_order()
    ensures
        forall|x: Addr| !#[trigger] addr_lt(x, x),
        forall|x: Addr, y: Addr, z: Addr|
            #[trigger] addr_lt(x, y) && #[trigger] addr_lt(y, z) ==> addr_lt(x, z),
        forall|x: Addr, y: Addr| x == y || #[trigger] addr_lt(x, y) || addr_lt(y, x),
        forall|x: Addr, y: Addr| #[trigger] addr_lt(x, y) ==> !addr_lt(y, x),
{
    assert forall|x: Addr| !#[trigger] addr_lt(x, x) by {
        lemma_seq_lt_irreflexive(x.0);
    }
    assert forall|x: Addr, y: Addr, z: Addr|
        #[trigger] addr_lt(x, y) && #[trigger] addr_lt(y, z) implies addr_lt(x, z) by {
        if seq_lt(x.0, y.0) && seq_lt(y.0, z.0) {
            lemma_seq_lt_transitive(x.0, y.0, z.0);
        }
    }
    assert forall|x: Addr, y: Addr| x == y || #[trigger] addr_lt(x, y) || addr_lt(y, x) by {
        lemma_seq_lt_total(x.0, y.0);
    }
    assert forall|x: Addr, y: Addr| #[trigger] addr_lt(x, y) implies !addr_lt(y, x) by {
        lemma_seq_lt_irreflexive(x.0);
        if seq_lt(x.0, y.0) {
            lemma_seq_lt_asymmetric(x.0, y.0);
        }
        if seq_lt(y.0, x.0) {
            lemma_seq_lt_asymmetric(y.0, x.0);
        }
    }
}

/// Three-way comparison of character sequences: -1, 0 or 1.
pub fn compare_chars(a: &Vec<char>, b: &Vec<char>) -> (res: i8)
    ensures
        res == 0 <==> a@ == b@,
        res < 0 <==> seq_lt(a@, b@),
        res > 0 <==> seq_lt(b@, a@),
        -1 <= res <= 1,
{
    let mut i: usize = 0;
    proof {
        assert(a@.skip(0) =~= a@);
        assert(b@.skip(0) =~= b@);
    }
    while i < a.len() && i < b.len()
        invariant
            i <= a@.len(),
            i <= b@.len(),
            a@.subrange(0, i as int) == b@.subrange(0, i as int),
            seq_lt(a@, b@) == seq_lt(a@.skip(i as int), b@.skip(i as int)),
            seq_lt(b@, a@) == seq_lt(b@.skip(i as int), a@.skip(i as int)),
        decreases a@.len() - i,
    {
        if a[i] < b[i] {
            proof {
                lemma_seq_lt_asymmetric(a@.skip(i as int), b@.skip(i as int));
                if a@ == b@ {
                    lemma_seq_lt_irreflexive(a@);
                }
            }
            return -1;
        }
        if b[i] < a[i] {
            proof {
                lemma_seq_lt_asymmetric(b@.skip(i as int), a@.skip(i as int));
                if a@ == b@ {
                    lemma_seq_lt_irreflexive(a@);
                }
            }
            return 1;
        }
        proof {
            assert(a@.skip(i as int).drop_first() =~= a@.skip(i + 1));
            assert(b@.skip(i as int).drop_first() =~= b@.skip(i + 1));
            assert(a@.subrange(0, i + 1) =~= a@.subrange(0, i as int).push(a@[i as int]));
            assert(b@.subrange(0, i + 1) =~= b@.subrange(0, i as int).push(b@[i as int]));
        }
        i += 1;
    }
    if a.len() == b.len() {
        proof {
            assert(a@ =~= a@.subrange(0, i as int));
            assert(b@ =~= b@.subrange(0, i as int));
            lemma_seq_lt_irreflexive(a@);
        }
        0
    } else if a.len() < b.len() {
        proof {
            assert(a@.skip(i as int).len() == 0);
            if a@ == b@ {
                lemma_seq_lt_irreflexive(a@);
            }
        }
        -1
    } else {
        proof {
            assert(b@.skip(i as int).len() == 0);
        }
        1
    }
}

/// Three-way comparison of addresses in the canonical order.
pub fn compare_addr(x: &CellAddress, y: &CellAddress) -> (res: i8)
    ensures
        res == 0 <==> av(*x) == av(*y),
        res < 0 <==> addr_lt(av(*x), av(*y)),
        res > 0 <==> addr_lt(av(*y), av(*x)),
        -1 <= res <= 1,
{
    let a = chars_of(x.sheet_id.as_str());
    let b = chars_of(y.sheet_id.as_str());
    let c = compare_chars(&a, &b);
    proof {
        lemma_addr_order();
    }
    if c != 0 {
        return c;
    }
    if x.row < y.row {
        -1
    } else if x.row > y.row {
        1
    } else if x.column < y.column {
        -1
    } else if x.column > y.column {
        1
    } else {
        0
    }
}

/// A copy of an address.
pub fn copy_addr(a: &CellAddress) -> (res: CellAddress)
    ensures
        av(res) == av(*a),
{
    CellAddress { sheet_id: a.sheet_id.clone(), row: a.row, column: a.column }
}

/// Whether two addresses denote the same cell.
pub fn same_addr(x: &CellAddress, y: &CellAddress) -> (res: bool)
    ensures
        res == (av(*x) == av(*y)),
{
    x.row == y.row && x.column == y.column && x.sheet_id == y.sheet_id
}

} // verus!
