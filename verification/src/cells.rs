//! What a cell holds besides its formula: a scalar value, opaque
//! attributes and a style, and the copies of each that the engine hands out.

use vstd::prelude::*;

verus! {

/// A cell's stored value. A number keeps its literal text.
#[derive(Debug, Clone, PartialEq, Eq)]
pub enum CellValue {
    Null,
    Bool(bool),
    Number(String),
    Text(String),
}

/// A stored value by the texts it holds.
pub enum CellValueView {
    Null,
    Bool(bool),
    Number(Seq<char>),
    Text(Seq<char>),
}

pub open spec fn value_view(v: CellValue) -> CellValueView {
    match v {
        CellValue::Null => CellValueView::Null,
        CellValue::Bool(b) => CellValueView::Bool(b),
        CellValue::Number(s) => CellValueView::Number(s@),
        CellValue::Text(s) => CellValueView::Text(s@),
    }
}

pub open spec fn opt_value_view(o: Option<CellValue>) -> Option<CellValueView> {
    match o {
        Some(v) => Some(value_view(v)),
        None => None,
    }
}

/// Attribute keys with the JSON text of their values, by their texts.
pub open spec fn attrs_view(a: Seq<(String, String)>) -> Seq<(Seq<char>, Seq<char>)> {
    a.map_values(|p: (String, String)| (p.0@, p.1@))
}

pub open spec fn text_view(o: Option<String>) -> Option<Seq<char>> {
    match o {
        Some(s) => Some(s@),
        None => None,
    }
}

/// A copy of a stored value.
pub fn copy_value(v: &CellValue) -> (res: CellValue)
    ensures
        value_view(res) == value_view(*v),
{
    match v {
        CellValue::Null => CellValue::Null,
        CellValue::Bool(b) => CellValue::Bool(*b),
        CellValue::Number(s) => CellValue::Number(s.clone()),
        CellValue::Text(s) => CellValue::Text(s.clone()),
    }
}

/// A copy of an optional stored value.
pub fn copy_opt_value(v: &Option<CellValue>) -> (res: Option<CellValue>)
    ensures
        opt_value_view(res) == opt_value_view(*v),
{
    match v {
        Some(x) => Some(copy_value(x)),
        None => None,
    }
}

/// A copy of an optional text.
pub fn copy_text(o: &Option<String>) -> (res: Option<String>)
    ensures
        text_view(res) == text_view(*o),
{
    match o {
        Some(s) => Some(s.clone()),
        None => None,
    }
}

/// A copy of a cell's attributes, in order.
pub fn copy_attrs(a: &Vec<(String, String)>) -> (res: Vec<(String, String)>)
    ensures
        attrs_view(res@) == attrs_view(a@),
{
    let mut out: Vec<(String, String)> = Vec::new();
    let mut k: usize = 0;
    while k < a.len()
        invariant
            k <= a@.len(),
            attrs_view(out@) == attrs_view(a@.subrange(0, k as int)),
        decreases a@.len() - k,
    {
        let ghost before = out@;
        out.push((a[k].0.clone(), a[k].1.clone()));
        proof {
            assert(attrs_view(out@) =~= attrs_view(before).push((a@[k as int].0@, a@[k as int].1@)));
            assert(attrs_view(a@.subrange(0, k + 1)) =~= attrs_view(a@.subrange(0, k as int)).push(
                (a@[k as int].0@, a@[k as int].1@),
            ));
        }
        k += 1;
    }
    proof {
        assert(a@.subrange(0, a@.len() as int) =~= a@);
    }
    out
}

} // verus!
