//! Sheet-name normalisation and the table that resolves a sheet's id or
//! name to its id.

use vstd::prelude::*;
use crate::text::{lower, chars_of, string_of};
use crate::address::compare_chars;

verus! {

/// `char::is_whitespace`: the Unicode `White_Space` property.
pub open spec fn is_ws(c: char) -> bool {
    let v = c as u32;
    (0x9 <= v <= 0xD) || v == 0x20 || v == 0x85 || v == 0xA0 || v == 0x1680 || (0x2000 <= v
        <= 0x200A) || v == 0x2028 || v == 0x2029 || v == 0x202F || v == 0x205F || v == 0x3000
}

pub fn is_ws_exec(c: char) -> (res: bool)
    ensures
        res == is_ws(c),
{
    let v = c as u32;
    (0x9 <= v && v <= 0xD) || v == 0x20 || v == 0x85 || v == 0xA0 || v == 0x1680 || (0x2000 <= v
        && v <= 0x200A) || v == 0x2028 || v == 0x2029 || v == 0x202F || v == 0x205F || v == 0x3000
}

/// Number of whitespace characters at the start.
pub open spec fn ws_lead(s: Seq<char>) -> nat
    decreases s.len(),
{
    if s.len() > 0 && is_ws(s[0]) {
        1 + ws_lead(s.drop_first())
    } else {
        0
    }
}

/// Number of whitespace characters at the end.
pub open spec fn ws_trail(s: Seq<char>) -> nat
    decreases s.len(),
{
    if s.len() > 0 && is_ws(s.last()) {
        1 + ws_trail(s.drop_last())
    } else {
        0
    }
}

/// `str::trim`: the text without leading and trailing whitespace.
pub open spec fn trim(s: Seq<char>) -> Seq<char> {
    if ws_lead(s) >= s.len() {
        Seq::empty()
    } else {
        s.subrange(ws_lead(s) as int, s.len() - ws_trail(s))
    }
}

/// Sheet names compare trimmed and with ASCII letters in lower case.
pub open spec fn normalize(s: Seq<char>) -> Seq<char> {
    trim(s).map_values(|c: char| lower(c))
}

proof fn lemma_ws_lead(s: Seq<char>, k: int)
    requires
        0 <= k <= s.len(),
        forall|j: int| 0 <= j < k ==> is_ws(#[trigger] s[j]),
        k == s.len() || !is_ws(s[k]),
    ensures
        ws_lead(s) == k,
    decreases k,
{
    if k > 0 {
        let t = s.drop_first();
        assert forall|j: int| 0 <= j < k - 1 implies is_ws(#[trigger] t[j]) by {
            assert(t[j] == s[j + 1]);
        }
        lemma_ws_lead(t, k - 1);
    }
}

proof fn lemma_ws_trail(s: Seq<char>, k: int)
    requires
        0 <= k <= s.len(),
        forall|j: int| s.len() - k <= j < s.len() ==> is_ws(#[trigger] s[j]),
        k == s.len() || !is_ws(s[s.len() - k - 1]),
    ensures
        ws_trail(s) == k,
    decreases k,
{
    if k > 0 {
        let t = s.drop_last();
        assert forall|j: int| t.len() - (k - 1) <= j < t.len() implies is_ws(#[trigger] t[j]) by {
            assert(t[j] == s[j]);
        }
        lemma_ws_trail(t, k - 1);
    }
}

pub fn lower_exec(c: char) -> (res: char)
    ensures
        res == lower(c),
{
    if 'A' <= c && c <= 'Z' {
        let v: u8 = ((c as u32) + 32) as u8;
        v as char
    } else {
        c
    }
}

/// `str::trim` on text held as characters.
pub fn trim_chars(s: &Vec<char>) -> (res: Vec<char>)
    ensures
        res@ == trim(s@),
{
    let n = s.len();
    let mut a: usize = 0;
    while a < n && is_ws_exec(s[a])
        invariant
            a <= n == s@.len(),
            forall|j: int| 0 <= j < a ==> is_ws(#[trigger] s@[j]),
        decreases n - a,
    {
        a += 1;
    }
    proof {
        lemma_ws_lead(s@, a as int);
    }
    let mut out: Vec<char> = Vec::new();
    if a == n {
        proof {
            assert(out@ =~= trim(s@));
        }
        return out;
    }
    let mut b: usize = n;
    while b > a && is_ws_exec(s[b - 1])
        invariant
            a < n == s@.len(),
            a <= b <= n,
            !is_ws(s@[a as int]),
            forall|j: int| b <= j < n ==> is_ws(#[trigger] s@[j]),
        decreases b,
    {
        b -= 1;
    }
    proof {
        lemma_ws_trail(s@, (n - b) as int);
    }
    let mut i = a;
    while i < b
        invariant
            a <= i <= b <= n == s@.len(),
            out@ == s@.subrange(a as int, i as int),
        decreases b - i,
    {
        out.push(s[i]);
        proof {
            assert(out@ =~= s@.subrange(a as int, i + 1));
        }
        i += 1;
    }
    out
}

/// Normalises a sheet name held as characters.
pub fn normalize_chars(s: &Vec<char>) -> (res: Vec<char>)
    ensures
        res@ == normalize(s@),
{
    let t = trim_chars(s);
    let mut out: Vec<char> = Vec::new();
    let mut i: usize = 0;
    while i < t.len()
        invariant
            i <= t@.len(),
            out@ == t@.subrange(0, i as int).map_values(|c: char| lower(c)),
        decreases t@.len() - i,
    {
        out.push(lower_exec(t[i]));
        proof {
            assert(t@.subrange(0, i + 1).map_values(|c: char| lower(c)) =~= t@.subrange(0, i as int).map_values(
                |c: char| lower(c),
            ).push(lower(t@[i as int])));
        }
        i += 1;
    }
    proof {
        assert(t@.subrange(0, t@.len() as int) =~= t@);
    }
    out
}

/// `str::trim` followed by `str::to_ascii_lowercase`.
pub fn normalize_sheet_name(name: &str) -> (res: String)
    ensures
        res@ == normalize(name@),
{
    let chars = chars_of(name);
    let n = normalize_chars(&chars);
    string_of(&n)
}

/// Resolves normalised sheet ids and names to sheet ids. Each key occurs once.
pub struct SheetLookup {
    pub entries: Vec<(Vec<char>, String)>,
}

impl SheetLookup {
    pub open spec fn keys_unique(self) -> bool {
        forall|i: int, j: int|
            0 <= i < j < self.entries@.len() ==> #[trigger] self.entries@[i].0@
                != #[trigger] self.entries@[j].0@
    }

    /// The mapping from normalised names to sheet ids.
    pub open spec fn view(self) -> Map<Seq<char>, Seq<char>> {
        Map::new(
            |k: Seq<char>| exists|i: int| 0 <= i < self.entries@.len() && self.entries@[i].0@ == k,
            |k: Seq<char>|
                self.entries@[choose|i: int| 0 <= i < self.entries@.len() && self.entries@[i].0@
                    == k].1@,
        )
    }

    pub open spec fn spec_get(self, key: Seq<char>) -> Option<Seq<char>> {
        if self.view().contains_key(key) {
            Some(self.view()[key])
        } else {
            None
        }
    }

    /// The sheet id a normalised name resolves to.
    pub fn get(&self, key: &Vec<char>) -> (res: Option<String>)
        requires
            self.keys_unique(),
        ensures
            match self.spec_get(key@) {
                Some(id) => res matches Some(r) && r@ == id,
                None => res is None,
            },
    {
        let mut i: usize = 0;
        while i < self.entries.len()
            invariant
                i <= self.entries@.len(),
                self.keys_unique(),
                forall|j: int| 0 <= j < i ==> self.entries@[j].0@ != key@,
            decreases self.entries@.len() - i,
        {
            if compare_chars(&self.entries[i].0, key) == 0 {
                proof {
                    assert(self.view().contains_key(key@));
                    let c = choose|j: int| 0 <= j < self.entries@.len() && self.entries@[j].0@ == key@;
                    if c != i {
                        if c < i {
                            assert(self.entries@[c].0@ != self.entries@[i as int].0@);
                        } else {
                            assert(self.entries@[i as int].0@ != self.entries@[c].0@);
                        }
                    }
                }
                return Some(self.entries[i].1.clone());
            }
            i += 1;
        }
        None
    }

    pub proof fn lemma_view(self)
        requires
            self.keys_unique(),
        ensures
            forall|i: int|
                0 <= i < self.entries@.len() ==> #[trigger] self.view().contains_key(self.entries@[i].0@)
                    && self.view()[self.entries@[i].0@] == self.entries@[i].1@,
            forall|k: Seq<char>|
                #[trigger] self.view().contains_key(k) <==> exists|i: int|
                    0 <= i < self.entries@.len() && self.entries@[i].0@ == k,
    {
        assert forall|i: int|
            0 <= i < self.entries@.len() implies #[trigger] self.view().contains_key(self.entries@[i].0@)
                && self.view()[self.entries@[i].0@] == self.entries@[i].1@ by {
            let k = self.entries@[i].0@;
            assert(self.view().contains_key(k));
            let c = choose|j: int| 0 <= j < self.entries@.len() && self.entries@[j].0@ == k;
            if c != i {
                if c < i {
                    assert(self.entries@[c].0@ != self.entries@[i].0@);
                } else {
                    assert(self.entries@[i].0@ != self.entries@[c].0@);
                }
            }
        }
    }

    /// An empty table.
    pub fn new() -> (res: SheetLookup)
        ensures
            res.keys_unique(),
            res.view() == Map::<Seq<char>, Seq<char>>::empty(),
    {
        let res = SheetLookup { entries: Vec::new() };
        proof {
            assert(res.view() =~= Map::<Seq<char>, Seq<char>>::empty());
        }
        res
    }

    /// Records that `key` names sheet `id`. Returns false, and changes
    /// nothing, when `key` already names a different sheet.
    pub fn record(&mut self, key: Vec<char>, id: &String) -> (ok: bool)
        requires
            old(self).keys_unique(),
        ensures
            final(self).keys_unique(),
            ok == !(old(self).view().contains_key(key@) && old(self).view()[key@] != id@),
            ok ==> final(self).view() == old(self).view().insert(key@, id@),
            !ok ==> final(self).view() == old(self).view(),
    {
        proof {
            self.lemma_view();
        }
        let mut i: usize = 0;
        while i < self.entries.len()
            invariant
                i <= self.entries@.len(),
                self.keys_unique(),
                forall|j: int| 0 <= j < i ==> self.entries@[j].0@ != key@,
            decreases self.entries@.len() - i,
        {
            if compare_chars(&self.entries[i].0, &key) == 0 {
                proof {
                    self.lemma_view();
                }
                if self.entries[i].1 == *id {
                    proof {
                        assert(self.view().insert(key@, id@) =~= self.view());
                    }
                    return true;
                }
                return false;
            }
            i += 1;
        }
        let ghost before = *self;
        self.entries.push((key, id.clone()));
        proof {
            before.lemma_view();
            self.lemma_view();
            assert forall|k: Seq<char>| #[trigger] self.view().contains_key(k) <==> before.view().insert(key@, id@).contains_key(k) by {
                if self.view().contains_key(k) {
                    let j = choose|j: int| 0 <= j < self.entries@.len() && self.entries@[j].0@ == k;
                    if j < before.entries@.len() {
                        assert(before.entries@[j] == self.entries@[j]);
                    }
                }
                if before.view().contains_key(k) {
                    let j = choose|j: int| 0 <= j < before.entries@.len() && before.entries@[j].0@ == k;
                    assert(before.entries@[j] == self.entries@[j]);
                }
                if k == key@ {
                    assert(self.entries@[before.entries@.len() as int].0@ == k);
                }
            }
            assert forall|k: Seq<char>| #[trigger] self.view().contains_key(k) implies self.view()[k]
                == before.view().insert(key@, id@)[k] by {
                let j = choose|j: int| 0 <= j < self.entries@.len() && self.entries@[j].0@ == k;
                if j < before.entries@.len() {
                    assert(before.entries@[j] == self.entries@[j]);
                }
            }
            assert(self.view() =~= before.view().insert(key@, id@));
        }
        true
    }
}

} // verus!
