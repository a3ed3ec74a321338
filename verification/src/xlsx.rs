//! The text-level rules of the XLSX adapter: cell references, shared formula
//! expansion, XML escaping, package part names, loss reports and the fixed
//! package XML written on export.

use vstd::prelude::*;
use std::collections::HashMap;
use crate::a1::{col_name, a1_text, column_letters, parse_a1_chars, spec_parse_a1, alpha_run_end, digit_run_end};
use crate::grid::GridRange;
use crate::text::{
    chars_of, string_of, push_text, push_chars, same_text, is_digit, is_alnum, is_alnum_exec, decimal, decimal_chars,
    alpha_run, digit_run, lemma_alpha_run_facts, lemma_digit_run_facts,
};
use crate::sheet_name::{is_ws, is_ws_exec};

verus! {

/// Why reading or writing an XLSX package failed.
#[derive(Debug, Clone, PartialEq, Eq)]
pub enum XlsxError {
    /// A part is not valid UTF-8.
    NotUtf8(String),
    /// A required part is absent from the package.
    MissingPart(&'static str),
    /// A part is present but malformed.
    InvalidPart(String),
    /// A cell type outside the supported set.
    UnsupportedCellType(String),
    /// A feature the adapter does not carry.
    UnsupportedFeature(String),
    /// A cell reference that is not strict A1 notation.
    InvalidCellReference(String),
    /// A part ended inside an element.
    UnexpectedEof(&'static str),
}

/// A package part, or a feature inside one, whose meaning the model does
/// not carry.
#[derive(Debug, Clone, PartialEq, Eq)]
pub struct XlsxUnsupportedPart {
    pub part: String,
    pub reason: String,
}

/// What an import would lose.
#[derive(Debug, Clone, Default, PartialEq, Eq)]
pub struct XlsxLossReport {
    pub unsupported: Vec<XlsxUnsupportedPart>,
}

impl XlsxLossReport {
    /// Nothing would be lost.
    pub fn is_lossless(&self) -> (res: bool)
        ensures
            res == (self.unsupported@.len() == 0),
    {
        self.unsupported.len() == 0
    }
}

/// The differences found between two models.
#[derive(Debug, Clone, Default, PartialEq, Eq)]
pub struct XlsxSemanticDiff {
    pub differences: Vec<String>,
}

impl XlsxSemanticDiff {
    /// No difference was found.
    pub fn is_equivalent(&self) -> (res: bool)
        ensures
            res == (self.differences@.len() == 0),
    {
        self.differences.len() == 0
    }
}

/// Parses a strict A1 reference such as `C3` into the 0-based `(row, column)`.
pub fn parse_a1(reference: &str) -> (res: Result<(u32, u32), XlsxError>)
    ensures
        match spec_parse_a1(reference@) {
            Some(cell) => res == Ok::<(u32, u32), XlsxError>(cell),
            None => res matches Err(XlsxError::InvalidCellReference(s)) && s@ == reference@,
        },
{
    let chars = chars_of(reference);
    match parse_a1_chars(&chars) {
        Some(cell) => Ok(cell),
        None => Err(XlsxError::InvalidCellReference(string_of(&chars))),
    }
}

/// Column letters of the 0-based `column`: `A`, ..., `Z`, `AA`, ...
pub fn column_name(column: u32) -> (res: String)
    ensures
        res@ == col_name(column as nat),
{
    string_of(&column_letters(column as u64))
}

/// The A1 text `start:end` of a range.
pub fn range_ref(range: GridRange) -> (res: String)
    requires
        range.start_row < u32::MAX,
        range.end_row < u32::MAX,
    ensures
        res@ == a1_text(range.start_row as nat, range.start_column as nat) + seq![':'] + a1_text(
            range.end_row as nat,
            range.end_column as nat,
        ),
{
    let mut out = column_letters(range.start_column as u64);
    push_chars(&mut out, &decimal_chars(range.start_row as u64 + 1));
    out.push(':');
    push_chars(&mut out, &column_letters(range.end_column as u64));
    push_chars(&mut out, &decimal_chars(range.end_row as u64 + 1));
    proof {
        assert(out@ =~= a1_text(range.start_row as nat, range.start_column as nat) + seq![':'] + a1_text(
            range.end_row as nat,
            range.end_column as nat,
        ));
    }
    string_of(&out)
}

/// The message of a range reference with more than one `:`.
pub const INVALID_RANGE_PREFIX: &'static str = "范围引用无效：";

/// Index of the first `:` of `s`, or its length.
pub open spec fn first_colon(s: Seq<char>) -> int
    decreases s.len(),
{
    if s.len() == 0 {
        0
    } else if s[0] == ':' {
        0
    } else {
        1 + first_colon(s.drop_first())
    }
}

proof fn lemma_first_colon(s: Seq<char>)
    ensures
        0 <= first_colon(s) <= s.len(),
        forall|k: int| 0 <= k < first_colon(s) ==> s[k] != ':',
        first_colon(s) < s.len() ==> s[first_colon(s)] == ':',
    decreases s.len(),
{
    if s.len() > 0 && s[0] != ':' {
        lemma_first_colon(s.drop_first());
        assert forall|k: int| 0 <= k < first_colon(s) implies s[k] != ':' by {
            if k > 0 {
                assert(s[k] == s.drop_first()[k - 1]);
            }
        }
    }
}

/// The text before the first `:` of a range reference.
pub open spec fn range_start(s: Seq<char>) -> Seq<char> {
    s.subrange(0, first_colon(s))
}

/// The text after the first `:`, or the start when there is none.
pub open spec fn range_end(s: Seq<char>) -> Seq<char> {
    if first_colon(s) < s.len() {
        s.subrange(first_colon(s) + 1, s.len() as int)
    } else {
        range_start(s)
    }
}

/// The range `a:b` spans, corners in either order.
pub open spec fn spanned(a: (u32, u32), b: (u32, u32)) -> GridRange {
    GridRange {
        start_row: if a.0 <= b.0 { a.0 } else { b.0 },
        start_column: if a.1 <= b.1 { a.1 } else { b.1 },
        end_row: if a.0 <= b.0 { b.0 } else { a.0 },
        end_column: if a.1 <= b.1 { b.1 } else { a.1 },
    }
}

/// Reads an A1 range such as `B2:A1` (or a single cell) into the range its
/// corners span; an empty side reads as no range, and a second `:` is an
/// invalid part.
pub fn parse_range_ref(reference: &str) -> (res: Result<Option<GridRange>, XlsxError>)
    ensures
        ({
            let s = reference@;
            let start = range_start(s);
            let end = range_end(s);
            if first_colon(s) < s.len() && exists|k: int| first_colon(s) < k < s.len() && s[k] == ':' {
                res matches Err(XlsxError::InvalidPart(m)) && m@ == INVALID_RANGE_PREFIX@ + s
            } else if start.len() == 0 || end.len() == 0 {
                res matches Ok(None)
            } else {
                match (spec_parse_a1(start), spec_parse_a1(end)) {
                    (None, _) => res matches Err(XlsxError::InvalidCellReference(m)) && m@ == start,
                    (Some(_), None) => res matches Err(XlsxError::InvalidCellReference(m)) && m@ == end,
                    (Some(a), Some(b)) => res == Ok::<Option<GridRange>, XlsxError>(Some(spanned(a, b))),
                }
            }
        }),
{
    let chars = chars_of(reference);
    let n = chars.len();
    let mut p: usize = 0;
    proof {
        lemma_first_colon(chars@);
    }
    while p < n && chars[p] != ':'
        invariant
            p <= n == chars@.len(),
            forall|k: int| 0 <= k < p ==> chars@[k] != ':',
        decreases n - p,
    {
        p += 1;
    }
    proof {
        if p < first_colon(chars@) {
            assert(chars@[p as int] != ':');
        }
        assert(p == first_colon(chars@));
    }
    let start = crate::evaluation::slice_string(&chars, 0, p);
    let end = if p < n {
        let mut q: usize = p + 1;
        while q < n && chars[q] != ':'
            invariant
                p < q <= n == chars@.len(),
                forall|k: int| p < k < q ==> chars@[k] != ':',
            decreases n - q,
        {
            q += 1;
        }
        if q < n {
            let mut message = chars_of(INVALID_RANGE_PREFIX);
            push_chars(&mut message, &chars);
            return Err(XlsxError::InvalidPart(string_of(&message)));
        }
        crate::evaluation::slice_string(&chars, p + 1, n)
    } else {
        crate::evaluation::slice_string(&chars, 0, p)
    };
    if start.as_str().is_empty() || end.as_str().is_empty() {
        return Ok(None);
    }
    let a = match parse_a1(start.as_str()) {
        Ok(a) => a,
        Err(e) => return Err(e),
    };
    let b = match parse_a1(end.as_str()) {
        Ok(b) => b,
        Err(e) => return Err(e),
    };
    Ok(Some(GridRange {
        start_row: if a.0 <= b.0 { a.0 } else { b.0 },
        start_column: if a.1 <= b.1 { a.1 } else { b.1 },
        end_row: if a.0 <= b.0 { b.0 } else { a.0 },
        end_column: if a.1 <= b.1 { b.1 } else { a.1 },
    }))
}

/// The XML text of one character: markup characters become entities.
pub open spec fn escape_char(c: char) -> Seq<char> {
    if c == '&' {
        "&amp;"@
    } else if c == '<' {
        "&lt;"@
    } else if c == '>' {
        "&gt;"@
    } else if c == '"' {
        "&quot;"@
    } else if c == '\'' {
        "&apos;"@
    } else {
        seq![c]
    }
}

/// `s` with every markup character replaced by its entity.
pub open spec fn escaped(s: Seq<char>) -> Seq<char>
    decreases s.len(),
{
    if s.len() == 0 {
        Seq::empty()
    } else {
        escaped(s.drop_last()) + escape_char(s.last())
    }
}

/// Escapes `&`, `<`, `>`, `"` and `'` for XML text and attribute values.
pub fn xml_escape(value: &str) -> (res: String)
    ensures
        res@ == escaped(value@),
{
    let chars = chars_of(value);
    let mut out: Vec<char> = Vec::new();
    let mut k: usize = 0;
    while k < chars.len()
        invariant
            k <= chars@.len(),
            chars@ == value@,
            out@ == escaped(chars@.subrange(0, k as int)),
        decreases chars@.len() - k,
    {
        let c = chars[k];
        if c == '&' {
            push_text(&mut out, "&amp;");
        } else if c == '<' {
            push_text(&mut out, "&lt;");
        } else if c == '>' {
            push_text(&mut out, "&gt;");
        } else if c == '"' {
            push_text(&mut out, "&quot;");
        } else if c == '\'' {
            push_text(&mut out, "&apos;");
        } else {
            out.push(c);
        }
        proof {
            let pre = chars@.subrange(0, k as int);
            let post = chars@.subrange(0, k + 1);
            assert(post.drop_last() =~= pre);
            assert(post.last() == c);
            if !(c == '&' || c == '<' || c == '>' || c == '"' || c == '\'') {
                assert(out@ =~= escaped(pre) + seq![c]);
            }
        }
        k += 1;
    }
    proof {
        assert(chars@.subrange(0, chars@.len() as int) =~= chars@);
    }
    string_of(&out)
}

/// The format code of a built-in number format id; empty for other ids.
pub open spec fn builtin_format(id: u32) -> Seq<char> {
    if id == 0 {
        "General"@
    } else if id == 1 {
        "0"@
    } else if id == 2 {
        "0.00"@
    } else if id == 9 {
        "0%"@
    } else if id == 10 {
        "0.00%"@
    } else if id == 14 {
        "mm-dd-yy"@
    } else if id == 20 {
        "h:mm"@
    } else if id == 21 {
        "h:mm:ss"@
    } else if id == 22 {
        "m/d/yy h:mm"@
    } else {
        ""@
    }
}

/// The format code of the built-in number format `id`.
pub fn builtin_num_format(id: u32) -> (res: &'static str)
    ensures
        res@ == builtin_format(id),
{
    match id {
        0 => "General",
        1 => "0",
        2 => "0.00",
        9 => "0%",
        10 => "0.00%",
        14 => "mm-dd-yy",
        20 => "h:mm",
        21 => "h:mm:ss",
        22 => "m/d/yy h:mm",
        _ => "",
    }
}

/// The built-in number format id of a format code, if it has one.
pub open spec fn builtin_format_id(format: Seq<char>) -> Option<u32> {
    if format == "General"@ {
        Some(0)
    } else if format == "0"@ {
        Some(1)
    } else if format == "0.00"@ {
        Some(2)
    } else if format == "0%"@ {
        Some(9)
    } else if format == "0.00%"@ {
        Some(10)
    } else if format == "mm-dd-yy"@ {
        Some(14)
    } else if format == "h:mm"@ {
        Some(20)
    } else if format == "h:mm:ss"@ {
        Some(21)
    } else if format == "m/d/yy h:mm"@ {
        Some(22)
    } else {
        None
    }
}

/// The built-in number format id of `format`, if it is a built-in code.
pub fn builtin_num_format_id(format: &str) -> (res: Option<u32>)
    ensures
        res == builtin_format_id(format@),
{
    if same_text(format, "General") {
        Some(0)
    } else if same_text(format, "0") {
        Some(1)
    } else if same_text(format, "0.00") {
        Some(2)
    } else if same_text(format, "0%") {
        Some(9)
    } else if same_text(format, "0.00%") {
        Some(10)
    } else if same_text(format, "mm-dd-yy") {
        Some(14)
    } else if same_text(format, "h:mm") {
        Some(20)
    } else if same_text(format, "h:mm:ss") {
        Some(21)
    } else if same_text(format, "m/d/yy h:mm") {
        Some(22)
    } else {
        None
    }
}

/// `char::is_ascii_hexdigit`.
pub open spec fn is_hex(c: char) -> bool {
    is_digit(c) || ('a' <= c && c <= 'f') || ('A' <= c && c <= 'F')
}

/// How many times `c` repeats from position `i` on.
pub open spec fn char_run(s: Seq<char>, i: int, c: char) -> nat
    decreases s.len() - i,
{
    if 0 <= i < s.len() && s[i] == c {
        1 + char_run(s, i + 1, c)
    } else {
        0
    }
}

/// Six hexadecimal digits once the leading `#` signs are dropped.
pub open spec fn spec_is_rgb(s: Seq<char>) -> bool {
    let r = s.skip(char_run(s, 0, '#') as int);
    r.len() == 6 && forall|i: int| 0 <= i < r.len() ==> is_hex(#[trigger] r[i])
}

/// Whether `color` is an `RRGGBB` colour, with any leading `#` signs.
pub fn is_rgb_color(color: &str) -> (res: bool)
    ensures
        res == spec_is_rgb(color@),
{
    let s = chars_of(color);
    let n = s.len();
    let mut start: usize = 0;
    while start < n && s[start] == '#'
        invariant
            s@ == color@,
            n == s@.len(),
            start <= n,
            char_run(s@, 0, '#') == start + char_run(s@, start as int, '#'),
        decreases n - start,
    {
        start += 1;
    }
    proof {
        assert(char_run(s@, start as int, '#') == 0);
    }
    if n - start != 6 {
        return false;
    }
    let mut k: usize = start;
    while k < n
        invariant
            s@ == color@,
            n == s@.len(),
            start <= k <= n,
            n - start == 6,
            char_run(s@, 0, '#') == start,
            forall|j: int| start <= j < k ==> is_hex(#[trigger] s@[j]),
        decreases n - k,
    {
        let c = s[k];
        if !(('0' <= c && c <= '9') || ('a' <= c && c <= 'f') || ('A' <= c && c <= 'F')) {
            proof {
                assert(s@.skip(start as int)[k - start] == c);
            }
            return false;
        }
        k += 1;
    }
    proof {
        assert forall|i: int| 0 <= i < s@.skip(start as int).len() implies is_hex(#[trigger] s@.skip(start as int)[i]) by {
            assert(s@.skip(start as int)[i] == s@[start + i]);
        }
    }
    true
}

/// Succeeds when the package lists the part `part`.
pub fn require_part(parts: &[String], part: &'static str) -> (res: Result<(), XlsxError>)
    ensures
        (exists|i: int| 0 <= i < parts@.len() && (#[trigger] parts@[i])@ == part@) ==> res is Ok,
        !(exists|i: int| 0 <= i < parts@.len() && (#[trigger] parts@[i])@ == part@) ==> res == Err::<(), XlsxError>(
            XlsxError::MissingPart(part),
        ),
{
    let mut i: usize = 0;
    while i < parts.len()
        invariant
            i <= parts@.len(),
            forall|j: int| 0 <= j < i ==> (#[trigger] parts@[j])@ != part@,
        decreases parts@.len() - i,
    {
        if same_text(parts[i].as_str(), part) {
            return Ok(());
        }
        i += 1;
    }
    Err(XlsxError::MissingPart(part))
}


pub const CONTENT_TYPES_HEAD: &'static str = "<?xml version=\"1.0\" encoding=\"UTF-8\" standalone=\"yes\"?><Types xmlns=\"http://schemas.openxmlformats.org/package/2006/content-types\"><Default Extension=\"rels\" ContentType=\"application/vnd.openxmlformats-package.relationships+xml\"/><Default Extension=\"xml\" ContentType=\"application/xml\"/><Override PartName=\"/xl/workbook.xml\" ContentType=\"application/vnd.openxmlformats-officedocument.spreadsheetml.sheet.main+xml\"/>";

pub const SHEET_OVERRIDE_OPEN: &'static str = "<Override PartName=\"/xl/worksheets/sheet";

pub const SHEET_OVERRIDE_CLOSE: &'static str = ".xml\" ContentType=\"application/vnd.openxmlformats-officedocument.spreadsheetml.worksheet+xml\"/>";

pub const SHARED_STRINGS_OVERRIDE: &'static str = "<Override PartName=\"/xl/sharedStrings.xml\" ContentType=\"application/vnd.openxmlformats-officedocument.spreadsheetml.sharedStrings+xml\"/>";

pub const STYLES_OVERRIDE: &'static str = "<Override PartName=\"/xl/styles.xml\" ContentType=\"application/vnd.openxmlformats-officedocument.spreadsheetml.styles+xml\"/>";

pub const CONTENT_TYPES_END: &'static str = "</Types>";

pub const ROOT_RELATIONSHIPS: &'static str = "<?xml version=\"1.0\" encoding=\"UTF-8\" standalone=\"yes\"?><Relationships xmlns=\"http://schemas.openxmlformats.org/package/2006/relationships\"><Relationship Id=\"rId1\" Type=\"http://schemas.openxmlformats.org/officeDocument/2006/relationships/officeDocument\" Target=\"xl/workbook.xml\"/></Relationships>";

pub const RELATIONSHIPS_HEAD: &'static str = "<?xml version=\"1.0\" encoding=\"UTF-8\" standalone=\"yes\"?><Relationships xmlns=\"http://schemas.openxmlformats.org/package/2006/relationships\">";

pub const RELATIONSHIP_ID_OPEN: &'static str = "<Relationship Id=\"rId";

pub const WORKSHEET_RELATIONSHIP_MIDDLE: &'static str = "\" Type=\"http://schemas.openxmlformats.org/officeDocument/2006/relationships/worksheet\" Target=\"worksheets/sheet";

pub const WORKSHEET_RELATIONSHIP_CLOSE: &'static str = ".xml\"/>";

pub const SHARED_STRINGS_RELATIONSHIP_CLOSE: &'static str = "\" Type=\"http://schemas.openxmlformats.org/officeDocument/2006/relationships/sharedStrings\" Target=\"sharedStrings.xml\"/>";

pub const STYLES_RELATIONSHIP_CLOSE: &'static str = "\" Type=\"http://schemas.openxmlformats.org/officeDocument/2006/relationships/styles\" Target=\"styles.xml\"/>";

pub const RELATIONSHIPS_END: &'static str = "</Relationships>";

pub const SST_OPEN: &'static str = "<?xml version=\"1.0\" encoding=\"UTF-8\" standalone=\"yes\"?><sst xmlns=\"http://schemas.openxmlformats.org/spreadsheetml/2006/main\" count=\"";

pub const SST_UNIQUE: &'static str = "\" uniqueCount=\"";

pub const SST_OPEN_END: &'static str = "\">";

pub const SI_PRESERVE_OPEN: &'static str = "<si><t xml:space=\"preserve\">";

pub const SI_OPEN: &'static str = "<si><t>";

pub const SI_CLOSE: &'static str = "</t></si>";

pub const SST_END: &'static str = "</sst>";

/// The content-type overrides of worksheets `1..=n`.
pub open spec fn sheet_overrides(n: nat) -> Seq<char>
    decreases n,
{
    if n == 0 {
        Seq::empty()
    } else {
        sheet_overrides((n - 1) as nat) + SHEET_OVERRIDE_OPEN@ + decimal(n) + SHEET_OVERRIDE_CLOSE@
    }
}

/// The `[Content_Types].xml` of a package with `sheet_count` worksheets.
pub fn content_types_xml(sheet_count: usize, has_shared_strings: bool, has_styles: bool) -> (res: String)
    ensures
        res@ == CONTENT_TYPES_HEAD@ + sheet_overrides(sheet_count as nat) + (if has_shared_strings {
            SHARED_STRINGS_OVERRIDE@
        } else {
            Seq::empty()
        }) + (if has_styles {
            STYLES_OVERRIDE@
        } else {
            Seq::empty()
        }) + CONTENT_TYPES_END@,
{
    let mut xml: Vec<char> = Vec::new();
    push_text(&mut xml, CONTENT_TYPES_HEAD);
    let mut index: usize = 0;
    while index < sheet_count
        invariant
            index <= sheet_count,
            xml@ == CONTENT_TYPES_HEAD@ + sheet_overrides(index as nat),
        decreases sheet_count - index,
    {
        index += 1;
        push_text(&mut xml, SHEET_OVERRIDE_OPEN);
        push_chars(&mut xml, &decimal_chars(index as u64));
        push_text(&mut xml, SHEET_OVERRIDE_CLOSE);
        proof {
            assert(xml@ =~= CONTENT_TYPES_HEAD@ + sheet_overrides(index as nat));
        }
    }
    let ghost before = xml@;
    if has_shared_strings {
        push_text(&mut xml, SHARED_STRINGS_OVERRIDE);
    }
    let ghost middle = xml@;
    if has_styles {
        push_text(&mut xml, STYLES_OVERRIDE);
    }
    push_text(&mut xml, CONTENT_TYPES_END);
    proof {
        if has_shared_strings {
            assert(middle == before + SHARED_STRINGS_OVERRIDE@);
        } else {
            assert(middle =~= before + Seq::<char>::empty());
        }
        if has_styles {
            assert(xml@ =~= middle + STYLES_OVERRIDE@ + CONTENT_TYPES_END@);
        } else {
            assert(xml@ =~= middle + Seq::<char>::empty() + CONTENT_TYPES_END@);
        }
    }
    string_of(&xml)
}

/// The package's root relationships, which point at the workbook.
pub fn root_relationships_xml() -> (res: String)
    ensures
        res@ == ROOT_RELATIONSHIPS@,
{
    String::from_str(ROOT_RELATIONSHIPS)
}

/// The workbook relationships of worksheets `1..=n`.
pub open spec fn worksheet_relationships(n: nat) -> Seq<char>
    decreases n,
{
    if n == 0 {
        Seq::empty()
    } else {
        worksheet_relationships((n - 1) as nat) + RELATIONSHIP_ID_OPEN@ + decimal(n) + WORKSHEET_RELATIONSHIP_MIDDLE@
            + decimal(n) + WORKSHEET_RELATIONSHIP_CLOSE@
    }
}

/// The workbook's relationships: one per worksheet, then the shared strings
/// and the styles when the package has them, numbered on.
pub fn workbook_relationships_xml(sheet_count: usize, has_shared_strings: bool, has_styles: bool) -> (res: String)
    requires
        has_shared_strings ==> sheet_count + 1 <= usize::MAX,
        has_styles ==> sheet_count + 1 + (if has_shared_strings { 1int } else { 0int }) <= usize::MAX,
    ensures
        res@ == RELATIONSHIPS_HEAD@ + worksheet_relationships(sheet_count as nat) + (if has_shared_strings {
            RELATIONSHIP_ID_OPEN@ + decimal(sheet_count as nat + 1) + SHARED_STRINGS_RELATIONSHIP_CLOSE@
        } else {
            Seq::empty()
        }) + (if has_styles {
            RELATIONSHIP_ID_OPEN@ + decimal(sheet_count as nat + 1 + if has_shared_strings { 1nat } else { 0nat })
                + STYLES_RELATIONSHIP_CLOSE@
        } else {
            Seq::empty()
        }) + RELATIONSHIPS_END@,
{
    let mut xml: Vec<char> = Vec::new();
    push_text(&mut xml, RELATIONSHIPS_HEAD);
    let mut index: usize = 0;
    while index < sheet_count
        invariant
            index <= sheet_count,
            xml@ == RELATIONSHIPS_HEAD@ + worksheet_relationships(index as nat),
        decreases sheet_count - index,
    {
        index += 1;
        let digits = decimal_chars(index as u64);
        push_text(&mut xml, RELATIONSHIP_ID_OPEN);
        push_chars(&mut xml, &digits);
        push_text(&mut xml, WORKSHEET_RELATIONSHIP_MIDDLE);
        push_chars(&mut xml, &digits);
        push_text(&mut xml, WORKSHEET_RELATIONSHIP_CLOSE);
        proof {
            assert(xml@ =~= RELATIONSHIPS_HEAD@ + worksheet_relationships(index as nat));
        }
    }
    let ghost before = xml@;
    if has_shared_strings {
        push_text(&mut xml, RELATIONSHIP_ID_OPEN);
        push_chars(&mut xml, &decimal_chars((sheet_count + 1) as u64));
        push_text(&mut xml, SHARED_STRINGS_RELATIONSHIP_CLOSE);
    }
    let ghost middle = xml@;
    if has_styles {
        let id: usize = if has_shared_strings { sheet_count + 2 } else { sheet_count + 1 };
        push_text(&mut xml, RELATIONSHIP_ID_OPEN);
        push_chars(&mut xml, &decimal_chars(id as u64));
        push_text(&mut xml, STYLES_RELATIONSHIP_CLOSE);
    }
    let ghost last = xml@;
    push_text(&mut xml, RELATIONSHIPS_END);
    proof {
        let ss = if has_shared_strings {
            RELATIONSHIP_ID_OPEN@ + decimal(sheet_count as nat + 1) + SHARED_STRINGS_RELATIONSHIP_CLOSE@
        } else {
            Seq::<char>::empty()
        };
        let st = if has_styles {
            RELATIONSHIP_ID_OPEN@ + decimal(sheet_count as nat + 1 + if has_shared_strings { 1nat } else { 0nat })
                + STYLES_RELATIONSHIP_CLOSE@
        } else {
            Seq::<char>::empty()
        };
        assert(middle =~= before + ss);
        assert(last =~= middle + st);
        assert(xml@ =~= before + ss + st + RELATIONSHIPS_END@);
    }
    string_of(&xml)
}

/// The `<si>` element of one shared string; text that starts or ends with
/// white space keeps it.
pub open spec fn shared_string_item(s: Seq<char>) -> Seq<char> {
    let preserve = s.len() > 0 && (is_ws(s[0]) || is_ws(s.last()));
    (if preserve { SI_PRESERVE_OPEN@ } else { SI_OPEN@ }) + escaped(s) + SI_CLOSE@
}

/// The `<si>` elements of the first `k` shared strings.
pub open spec fn shared_string_items(shared: Seq<String>, k: nat) -> Seq<char>
    decreases k,
{
    if k == 0 || k > shared.len() {
        Seq::empty()
    } else {
        shared_string_items(shared, (k - 1) as nat) + shared_string_item(shared[k - 1]@)
    }
}

/// The shared strings part, with the strings given in index order.
pub fn shared_strings_xml(shared: &Vec<String>) -> (res: String)
    ensures
        res@ == SST_OPEN@ + decimal(shared@.len()) + SST_UNIQUE@ + decimal(shared@.len()) + SST_OPEN_END@
            + shared_string_items(shared@, shared@.len()) + SST_END@,
{
    let mut xml: Vec<char> = Vec::new();
    let count = decimal_chars(shared.len() as u64);
    push_text(&mut xml, SST_OPEN);
    push_chars(&mut xml, &count);
    push_text(&mut xml, SST_UNIQUE);
    push_chars(&mut xml, &count);
    push_text(&mut xml, SST_OPEN_END);
    let ghost head = xml@;
    let mut k: usize = 0;
    while k < shared.len()
        invariant
            k <= shared@.len(),
            xml@ == head + shared_string_items(shared@, k as nat),
        decreases shared@.len() - k,
    {
        let value = chars_of(shared[k].as_str());
        let preserve = value.len() > 0 && (is_ws_exec(value[0]) || is_ws_exec(value[value.len() - 1]));
        if preserve {
            push_text(&mut xml, SI_PRESERVE_OPEN);
        } else {
            push_text(&mut xml, SI_OPEN);
        }
        let escaped_value = xml_escape(shared[k].as_str());
        push_chars(&mut xml, &chars_of(escaped_value.as_str()));
        push_text(&mut xml, SI_CLOSE);
        proof {
            assert(shared_string_items(shared@, (k + 1) as nat) == shared_string_items(shared@, k as nat)
                + shared_string_item(shared@[k as int]@));
            assert(xml@ =~= head + shared_string_items(shared@, (k + 1) as nat));
        }
        k += 1;
    }
    push_text(&mut xml, SST_END);
    string_of(&xml)
}


/// `t` opens `s`.
pub open spec fn starts_with(s: Seq<char>, t: Seq<char>) -> bool {
    t.len() <= s.len() && s.subrange(0, t.len() as int) == t
}

/// `t` closes `s`.
pub open spec fn ends_with(s: Seq<char>, t: Seq<char>) -> bool {
    t.len() <= s.len() && s.subrange(s.len() - t.len(), s.len() as int) == t
}

/// `t` occurs somewhere in `s`.
pub open spec fn has_infix(s: Seq<char>, t: Seq<char>) -> bool {
    exists|i: int| 0 <= i && i + t.len() <= s.len() && #[trigger] s.subrange(i, i + t.len()) == t
}

/// The bytes from `i` on spell out the ASCII text `t`.
pub open spec fn bytes_spell_at(b: Seq<u8>, i: int, t: Seq<char>) -> bool {
    0 <= i && i + t.len() <= b.len() && forall|k: int| 0 <= k < t.len() ==> (#[trigger] b[i + k]) as char == t[k]
}

/// The bytes spell out the ASCII text `t` somewhere.
pub open spec fn bytes_contain(b: Seq<u8>, t: Seq<char>) -> bool {
    exists|i: int| #[trigger] bytes_spell_at(b, i, t)
}

/// Whether `s` opens with `t`.
pub fn text_starts_with(s: &Vec<char>, t: &str) -> (res: bool)
    ensures
        res == starts_with(s@, t@),
{
    let u = chars_of(t);
    if u.len() > s.len() {
        return false;
    }
    let mut k: usize = 0;
    while k < u.len()
        invariant
            u@ == t@,
            u@.len() <= s@.len(),
            k <= u@.len(),
            forall|j: int| 0 <= j < k ==> s@[j] == u@[j],
        decreases u@.len() - k,
    {
        if s[k] != u[k] {
            proof {
                assert(s@.subrange(0, u@.len() as int)[k as int] == s@[k as int]);
            }
            return false;
        }
        k += 1;
    }
    proof {
        assert(s@.subrange(0, u@.len() as int) =~= u@);
    }
    true
}

/// Whether `s` closes with `t`.
pub fn text_ends_with(s: &Vec<char>, t: &str) -> (res: bool)
    ensures
        res == ends_with(s@, t@),
{
    let u = chars_of(t);
    if u.len() > s.len() {
        return false;
    }
    let sn = s.len();
    let off = s.len() - u.len();
    let mut k: usize = 0;
    while k < u.len()
        invariant
            sn == s@.len(),
            u@ == t@,
            u@.len() <= s@.len(),
            off == s@.len() - u@.len(),
            k <= u@.len(),
            forall|j: int| 0 <= j < k ==> s@[off + j] == u@[j],
        decreases u@.len() - k,
    {
        if s[off + k] != u[k] {
            proof {
                assert(s@.subrange(off as int, s@.len() as int)[k as int] == s@[off + k]);
            }
            return false;
        }
        k += 1;
    }
    proof {
        assert(s@.subrange(off as int, s@.len() as int) =~= u@);
    }
    true
}

/// Whether `t` occurs in `s`.
pub fn text_contains(s: &Vec<char>, t: &str) -> (res: bool)
    ensures
        res == has_infix(s@, t@),
{
    let u = chars_of(t);
    if u.len() > s.len() {
        proof {
            assert forall|i: int| 0 <= i && i + u@.len() <= s@.len() implies #[trigger] s@.subrange(i, i + u@.len()) != u@ by {}
        }
        return false;
    }
    let sn = s.len();
    let mut i: usize = 0;
    while i <= s.len() - u.len()
        invariant
            sn == s@.len(),
            u@ == t@,
            u@.len() <= s@.len(),
            i <= s@.len() - u@.len() + 1,
            forall|p: int| 0 <= p < i ==> #[trigger] s@.subrange(p, p + u@.len()) != u@,
        decreases s@.len() - u@.len() + 1 - i,
    {
        let mut k: usize = 0;
        let mut same = true;
        while k < u.len()
            invariant
                sn == s@.len(),
                u@.len() <= s@.len(),
                i + u@.len() <= s@.len(),
                k <= u@.len(),
                same == forall|j: int| 0 <= j < k ==> s@[i + j] == u@[j],
            decreases u@.len() - k,
        {
            if s[i + k] != u[k] {
                same = false;
            }
            k += 1;
        }
        if same {
            proof {
                assert(s@.subrange(i as int, i + u@.len()) =~= u@);
            }
            return true;
        }
        proof {
            let j = choose|j: int| 0 <= j < u@.len() && s@[i + j] != u@[j];
            assert(s@.subrange(i as int, i + u@.len())[j] == s@[i + j]);
        }
        i += 1;
    }
    false
}

/// Whether the bytes spell out the ASCII text `t` somewhere.
pub fn bytes_contain_text(b: &[u8], t: &str) -> (res: bool)
    ensures
        res == bytes_contain(b@, t@),
{
    let u = chars_of(t);
    if u.len() > b.len() {
        return false;
    }
    let bn = b.len();
    let mut i: usize = 0;
    while i <= b.len() - u.len()
        invariant
            bn == b@.len(),
            u@ == t@,
            u@.len() <= b@.len(),
            i <= b@.len() - u@.len() + 1,
            forall|p: int| 0 <= p < i ==> !#[trigger] bytes_spell_at(b@, p, u@),
        decreases b@.len() - u@.len() + 1 - i,
    {
        let mut k: usize = 0;
        let mut same = true;
        while k < u.len()
            invariant
                bn == b@.len(),
                u@.len() <= b@.len(),
                i + u@.len() <= b@.len(),
                k <= u@.len(),
                same == forall|j: int| 0 <= j < k ==> (#[trigger] b@[i + j]) as char == u@[j],
            decreases u@.len() - k,
        {
            if (b[i + k] as char) != u[k] {
                same = false;
            }
            k += 1;
        }
        if same {
            proof {
                assert(bytes_spell_at(b@, i as int, u@));
            }
            return true;
        }
        i += 1;
    }
    false
}

/// Why a package part that nothing consumed is not modeled.
pub open spec fn part_reason(p: Seq<char>) -> Seq<char> {
    if starts_with(p, "xl/media/"@) || starts_with(p, "xl/drawings/"@) {
        "media/drawing semantics are not modeled"@
    } else if starts_with(p, "xl/charts/"@) {
        "chart semantics are not modeled"@
    } else if starts_with(p, "xl/externalLinks/"@) {
        "external workbook links are not modeled"@
    } else if ends_with(p, "vbaProject.bin"@) || has_infix(p, "macrosheets/"@) {
        "VBA macros and macro sheets are not modeled and will never be executed"@
    } else if starts_with(p, "xl/pivot"@) || has_infix(p, "pivotCache"@) {
        "pivot table semantics are not modeled"@
    } else if has_infix(p, "comments"@) || has_infix(p, "threadedComment"@) {
        "comment semantics are not modeled"@
    } else {
        "package part is not modeled"@
    }
}

/// Why the package part `part`, which the adapter does not consume, is not
/// modeled.
pub fn unsupported_reason(part: &str) -> (res: &'static str)
    ensures
        res@ == part_reason(part@),
{
    let p = chars_of(part);
    if text_starts_with(&p, "xl/media/") || text_starts_with(&p, "xl/drawings/") {
        "media/drawing semantics are not modeled"
    } else if text_starts_with(&p, "xl/charts/") {
        "chart semantics are not modeled"
    } else if text_starts_with(&p, "xl/externalLinks/") {
        "external workbook links are not modeled"
    } else if text_ends_with(&p, "vbaProject.bin") || text_contains(&p, "macrosheets/") {
        "VBA macros and macro sheets are not modeled and will never be executed"
    } else if text_starts_with(&p, "xl/pivot") || text_contains(&p, "pivotCache") {
        "pivot table semantics are not modeled"
    } else if text_contains(&p, "comments") || text_contains(&p, "threadedComment") {
        "comment semantics are not modeled"
    } else {
        "package part is not modeled"
    }
}

pub const WORKBOOK_EXTERNAL_REFERENCES: &'static str = "xl/workbook.xml#externalReferences";

pub const EXTERNAL_REFERENCES_REASON: &'static str = "external workbook references are not modeled";

/// What the workbook part holds that the model does not: external
/// workbook references.
pub fn workbook_unsupported_parts(bytes: &[u8]) -> (res: Vec<XlsxUnsupportedPart>)
    ensures
        bytes_contain(bytes@, "externalReferences"@) ==> res@.len() == 1 && res@[0].part@
            == WORKBOOK_EXTERNAL_REFERENCES@ && res@[0].reason@ == EXTERNAL_REFERENCES_REASON@,
        !bytes_contain(bytes@, "externalReferences"@) ==> res@.len() == 0,
{
    let mut unsupported: Vec<XlsxUnsupportedPart> = Vec::new();
    if bytes_contain_text(bytes, "externalReferences") {
        unsupported.push(
            XlsxUnsupportedPart {
                part: String::from_str(WORKBOOK_EXTERNAL_REFERENCES),
                reason: String::from_str(EXTERNAL_REFERENCES_REASON),
            },
        );
    }
    unsupported
}

/// The worksheet markup the model does not carry, each with its reason.
pub open spec fn worksheet_checks() -> Seq<(Seq<char>, Seq<char>)> {
    seq![
        ("<drawing"@, "worksheet drawings/images are not imported"@),
        ("<legacyDrawing"@, "legacy drawings/comments are not imported"@),
        ("<tableParts"@, "structured table semantics are not modeled"@),
        ("<hyperlinks"@, "worksheet hyperlinks are not modeled"@),
        ("<sheetProtection"@, "worksheet protection is not modeled"@),
        ("<extLst"@, "worksheet extension semantics are not modeled"@),
        ("<top10"@, "top-10 filter predicates are not modeled"@),
        ("<dynamicFilter"@, "dynamic filter predicates are not modeled"@),
        ("<colorFilter"@, "color filter predicates are not modeled"@),
        ("<iconFilter"@, "icon filter predicates are not modeled"@),
        ("t=\"array\""@, "array-formula spill semantics are not modeled; only the anchor formula is retained"@),
    ]
}

/// The reasons of the first `k` checks whose markup the bytes contain, in
/// check order.
pub open spec fn found_reasons(b: Seq<u8>, k: nat) -> Seq<Seq<char>>
    decreases k,
{
    if k == 0 || k > worksheet_checks().len() {
        Seq::empty()
    } else {
        let rest = found_reasons(b, (k - 1) as nat);
        if bytes_contain(b, worksheet_checks()[k - 1].0) {
            rest.push(worksheet_checks()[k - 1].1)
        } else {
            rest
        }
    }
}

/// The markup checks, as exec text.
fn worksheet_check_table() -> (res: Vec<(&'static str, &'static str)>)
    ensures
        res@.len() == worksheet_checks().len(),
        forall|i: int| 0 <= i < res@.len() ==> (#[trigger] res@[i]).0@ == worksheet_checks()[i].0 && res@[i].1@
            == worksheet_checks()[i].1,
{
    let v = vec![
        ("<drawing", "worksheet drawings/images are not imported"),
        ("<legacyDrawing", "legacy drawings/comments are not imported"),
        ("<tableParts", "structured table semantics are not modeled"),
        ("<hyperlinks", "worksheet hyperlinks are not modeled"),
        ("<sheetProtection", "worksheet protection is not modeled"),
        ("<extLst", "worksheet extension semantics are not modeled"),
        ("<top10", "top-10 filter predicates are not modeled"),
        ("<dynamicFilter", "dynamic filter predicates are not modeled"),
        ("<colorFilter", "color filter predicates are not modeled"),
        ("<iconFilter", "icon filter predicates are not modeled"),
        ("t=\"array\"", "array-formula spill semantics are not modeled; only the anchor formula is retained"),
    ];
    v
}

/// What a worksheet part holds that the model does not carry, one entry per
/// kind of markup found, in a fixed order.
pub fn worksheet_unsupported_parts(part: &str, bytes: &[u8]) -> (res: Vec<XlsxUnsupportedPart>)
    ensures
        res@.len() == found_reasons(bytes@, worksheet_checks().len()).len(),
        forall|i: int|
            0 <= i < res@.len() ==> (#[trigger] res@[i]).part@ == part@ && res@[i].reason@ == found_reasons(
                bytes@,
                worksheet_checks().len(),
            )[i],
{
    let checks = worksheet_check_table();
    let mut out: Vec<XlsxUnsupportedPart> = Vec::new();
    let mut k: usize = 0;
    while k < checks.len()
        invariant
            checks@.len() == worksheet_checks().len(),
            forall|i: int| 0 <= i < checks@.len() ==> (#[trigger] checks@[i]).0@ == worksheet_checks()[i].0
                && checks@[i].1@ == worksheet_checks()[i].1,
            k <= checks@.len(),
            out@.len() == found_reasons(bytes@, k as nat).len(),
            forall|i: int|
                0 <= i < out@.len() ==> (#[trigger] out@[i]).part@ == part@ && out@[i].reason@ == found_reasons(
                    bytes@,
                    k as nat,
                )[i],
        decreases checks@.len() - k,
    {
        let (needle, reason) = checks[k];
        let ghost before = out@;
        if bytes_contain_text(bytes, needle) {
            out.push(XlsxUnsupportedPart { part: String::from_str(part), reason: String::from_str(reason) });
        }
        proof {
            assert(found_reasons(bytes@, (k + 1) as nat) == if bytes_contain(bytes@, worksheet_checks()[k as int].0) {
                found_reasons(bytes@, k as nat).push(worksheet_checks()[k as int].1)
            } else {
                found_reasons(bytes@, k as nat)
            });
            assert forall|i: int|
                0 <= i < out@.len() implies (#[trigger] out@[i]).part@ == part@ && out@[i].reason@ == found_reasons(
                    bytes@,
                    (k + 1) as nat,
                )[i] by {
                if i < before.len() {
                    assert(out@[i] == before[i]);
                }
            }
        }
        k += 1;
    }
    out
}


/// Backslashes turned into slashes.
pub open spec fn slashed(s: Seq<char>) -> Seq<char> {
    s.map_values(|c: char| if c == '\\' { '/' } else { c })
}

/// A relationship target as a part name: slashes only, no leading slash,
/// under `xl/`.
pub open spec fn rel_target(target: Seq<char>) -> Seq<char> {
    let t = slashed(target);
    let u = t.skip(char_run(t, 0, '/') as int);
    if starts_with(u, "xl/"@) {
        u
    } else {
        "xl/"@ + u
    }
}

/// `s[i..j]` is one of the `/`-separated segments of `s`.
pub open spec fn is_segment(s: Seq<char>, i: int, j: int) -> bool {
    &&& 0 <= i <= j <= s.len()
    &&& (i == 0 || s[i - 1] == '/')
    &&& (j == s.len() || s[j] == '/')
    &&& forall|k: int| i <= k < j ==> #[trigger] s[k] != '/'
}

/// An empty segment, or `..`.
pub open spec fn bad_segment(s: Seq<char>, i: int, j: int) -> bool {
    j == i || (j == i + 2 && s[i] == '.' && s[i + 1] == '.')
}

/// Some segment of the path is empty or `..`.
pub open spec fn unsafe_path(s: Seq<char>) -> bool {
    exists|i: int, j: int| is_segment(s, i, j) && #[trigger] bad_segment(s, i, j)
}

/// Whether some `/`-separated segment of `s` is empty or `..`.
fn has_bad_segment(s: &Vec<char>) -> (res: bool)
    ensures
        res == unsafe_path(s@),
{
    let n = s.len();
    let mut seg: usize = 0;
    let mut k: usize = 0;
    while k < n
        invariant
            n == s@.len(),
            seg <= k <= n,
            seg == 0 || s@[seg - 1] == '/',
            forall|q: int| seg <= q < k ==> #[trigger] s@[q] != '/',
            forall|i: int, j: int| j < seg && is_segment(s@, i, j) ==> !#[trigger] bad_segment(s@, i, j),
        decreases n - k,
    {
        if s[k] == '/' {
            let bad = k == seg || (k - seg == 2 && s[seg] == '.' && s[seg + 1] == '.');
            proof {
                assert(is_segment(s@, seg as int, k as int));
            }
            if bad {
                proof {
                    assert(bad_segment(s@, seg as int, k as int));
                }
                return true;
            }
            proof {
                assert forall|i: int, j: int| j < k + 1 && is_segment(s@, i, j) implies !#[trigger] bad_segment(s@, i, j) by {
                    if j == k {
                        if i < seg {
                            assert(s@[seg - 1] == '/');
                        } else if i > seg {
                            assert(s@[i - 1] == '/');
                        }
                    } else if j >= seg {
                        assert(s@[j] == '/');
                    }
                }
            }
            seg = k + 1;
        }
        k += 1;
    }
    let bad = n == seg || (n - seg == 2 && s[seg] == '.' && s[seg + 1] == '.');
    proof {
        assert(is_segment(s@, seg as int, n as int));
    }
    if bad {
        proof {
            assert(bad_segment(s@, seg as int, n as int));
        }
        return true;
    }
    proof {
        assert forall|i: int, j: int| is_segment(s@, i, j) implies !#[trigger] bad_segment(s@, i, j) by {
            if j == n {
                if i < seg {
                    assert(s@[seg - 1] == '/');
                } else if i > seg {
                    assert(s@[i - 1] == '/');
                }
            } else if j >= seg {
                assert(s@[j] == '/');
            }
        }
    }
    false
}

pub const UNSAFE_TARGET_OPEN: &'static str = "关系目标路径 ";

pub const UNSAFE_TARGET_CLOSE: &'static str = " 不安全";

/// The part name a workbook relationship target stands for, refused when
/// one of its segments is empty or `..`.
pub fn normalize_target(target: &str) -> (res: Result<String, XlsxError>)
    ensures
        !unsafe_path(rel_target(target@)) ==> (res matches Ok(s) && s@ == rel_target(target@)),
        unsafe_path(rel_target(target@)) ==> (res matches Err(XlsxError::InvalidPart(m)) && m@
            == UNSAFE_TARGET_OPEN@ + rel_target(target@) + UNSAFE_TARGET_CLOSE@),
{
    let src = chars_of(target);
    let n = src.len();
    let mut t: Vec<char> = Vec::new();
    let mut k: usize = 0;
    while k < n
        invariant
            n == src@.len(),
            k <= n,
            t@ == slashed(src@).subrange(0, k as int),
        decreases n - k,
    {
        let c = src[k];
        t.push(if c == '\\' { '/' } else { c });
        proof {
            assert(t@ =~= slashed(src@).subrange(0, k + 1));
        }
        k += 1;
    }
    proof {
        assert(t@ =~= slashed(src@));
    }
    let mut start: usize = 0;
    while start < n && t[start] == '/'
        invariant
            n == t@.len(),
            start <= n,
            char_run(t@, 0, '/') == start + char_run(t@, start as int, '/'),
        decreases n - start,
    {
        start += 1;
    }
    proof {
        assert(char_run(t@, start as int, '/') == 0);
    }
    let mut u: Vec<char> = Vec::new();
    let mut q: usize = start;
    while q < n
        invariant
            n == t@.len(),
            start <= q <= n,
            u@ == t@.subrange(start as int, q as int),
        decreases n - q,
    {
        u.push(t[q]);
        proof {
            assert(u@ =~= t@.subrange(start as int, q + 1));
        }
        q += 1;
    }
    proof {
        assert(u@ =~= t@.skip(start as int));
    }
    let path: Vec<char> = if text_starts_with(&u, "xl/") {
        u
    } else {
        let mut p: Vec<char> = Vec::new();
        push_text(&mut p, "xl/");
        push_chars(&mut p, &u);
        p
    };
    if has_bad_segment(&path) {
        let mut message: Vec<char> = Vec::new();
        push_text(&mut message, UNSAFE_TARGET_OPEN);
        push_chars(&mut message, &path);
        push_text(&mut message, UNSAFE_TARGET_CLOSE);
        return Err(XlsxError::InvalidPart(string_of(&message)));
    }
    Ok(string_of(&path))
}


/// The shape of a possible reference at `i`: an optional `$`, the letters
/// from `l0` (`k` of them), an optional `$`, and digits from `r0` up to `end`.
pub open spec fn ref_shape(s: Seq<char>, i: int) -> (bool, int, int, bool, int, int) {
    let cabs = 0 <= i < s.len() && s[i] == '$';
    let l0 = if cabs { i + 1 } else { i };
    let k = alpha_run(s, l0) as int;
    let rabs = l0 + k < s.len() && s[l0 + k] == '$';
    let r0 = if rabs { l0 + k + 1 } else { l0 + k };
    let end = r0 + digit_run(s, r0);
    (cabs, l0, k, rabs, r0, end)
}

pub proof fn lemma_ref_shape(s: Seq<char>, i: int)
    requires
        0 <= i < s.len(),
    ensures
        ({
            let (cabs, l0, k, rabs, r0, end) = ref_shape(s, i);
            &&& l0 == if cabs { i + 1 } else { i }
            &&& i <= l0 <= l0 + k <= r0 <= end <= s.len()
            &&& r0 == if rabs { l0 + k + 1 } else { l0 + k }
            &&& k > 0 ==> end > i
        }),
{
    let (cabs, l0, k, rabs, r0, end) = ref_shape(s, i);
    lemma_alpha_run_facts(s, l0);
    lemma_digit_run_facts(s, r0);
}

/// The text written for a reference at `(row, column)` moved by
/// `(dr, dc)` on its relative axes; `#REF!` when it leaves the sheet.
pub open spec fn moved_ref(cabs: bool, rabs: bool, row: u32, column: u32, dr: int, dc: int) -> Seq<char> {
    let tr = if rabs { row as int } else { row + dr };
    let tc = if cabs { column as int } else { column + dc };
    if tr < 0 || tc < 0 {
        "#REF!"@
    } else {
        (if cabs { seq!['$'] } else { Seq::empty() }) + col_name((tc as u32) as nat) + (if rabs {
            seq!['$']
        } else {
            Seq::empty()
        }) + decimal((tr + 1) as nat)
    }
}

/// What the expansion of a shared formula writes for `s[i..]`, inside a
/// string literal when `quoted`: text in quotes is kept, and each A1
/// reference that stands on its own is moved on its relative axes.
#[verifier::opaque]
pub open spec fn shifted(s: Seq<char>, i: int, quoted: bool, dr: int, dc: int) -> Seq<char>
    decreases s.len() - i,
{
    if i < 0 || i >= s.len() {
        Seq::empty()
    } else if s[i] == '"' {
        seq!['"'] + shifted(s, i + 1, !quoted, dr, dc)
    } else if quoted {
        seq![s[i]] + shifted(s, i + 1, quoted, dr, dc)
    } else {
        proof {
            lemma_ref_shape(s, i);
        }
        let (cabs, l0, k, rabs, r0, end) = ref_shape(s, i);
        if k == 0 {
            seq![s[i]] + shifted(s, i + 1, false, dr, dc)
        } else {
            let before = i > 0 && is_alnum(s[i - 1]) && s[i - 1] != '!';
            let after = end < s.len() && (is_alnum(s[end]) || s[end] == '_' || s[end] == '!' || s[end] == '(');
            if end == r0 || before || after {
                s.subrange(i, end) + shifted(s, end, false, dr, dc)
            } else {
                match spec_parse_a1(s.subrange(l0, l0 + k) + s.subrange(r0, end)) {
                    None => s.subrange(i, end) + shifted(s, end, false, dr, dc),
                    Some((row, column)) => moved_ref(cabs, rabs, row, column, dr, dc) + shifted(
                        s,
                        end,
                        false,
                        dr,
                        dc,
                    ),
                }
            }
        }
    }
}

proof fn lemma_shift_end(s: Seq<char>, i: int, q: bool, dr: int, dc: int)
    requires
        i >= s.len(),
    ensures
        shifted(s, i, q, dr, dc) == Seq::<char>::empty(),
{
    reveal(shifted);
}

proof fn lemma_shift_quote(s: Seq<char>, i: int, q: bool, dr: int, dc: int)
    requires
        0 <= i < s.len(),
        s[i] == '"',
    ensures
        shifted(s, i, q, dr, dc) == seq!['"'] + shifted(s, i + 1, !q, dr, dc),
{
    reveal(shifted);
}

proof fn lemma_shift_quoted(s: Seq<char>, i: int, dr: int, dc: int)
    requires
        0 <= i < s.len(),
        s[i] != '"',
    ensures
        shifted(s, i, true, dr, dc) == seq![s[i]] + shifted(s, i + 1, true, dr, dc),
{
    reveal(shifted);
}

proof fn lemma_shift_plain(s: Seq<char>, i: int, dr: int, dc: int)
    requires
        0 <= i < s.len(),
        s[i] != '"',
        ref_shape(s, i).2 == 0,
    ensures
        shifted(s, i, false, dr, dc) == seq![s[i]] + shifted(s, i + 1, false, dr, dc),
{
    reveal(shifted);
}

/// The outcome at a letter run: kept as written, or moved.
pub open spec fn ref_outcome(s: Seq<char>, i: int, dr: int, dc: int) -> Option<Seq<char>> {
    let (cabs, l0, k, rabs, r0, end) = ref_shape(s, i);
    let before = i > 0 && is_alnum(s[i - 1]) && s[i - 1] != '!';
    let after = end < s.len() && (is_alnum(s[end]) || s[end] == '_' || s[end] == '!' || s[end] == '(');
    if end == r0 || before || after {
        None
    } else {
        match spec_parse_a1(s.subrange(l0, l0 + k) + s.subrange(r0, end)) {
            None => None,
            Some((row, column)) => Some(moved_ref(cabs, rabs, row, column, dr, dc)),
        }
    }
}

proof fn lemma_shift_ref(s: Seq<char>, i: int, dr: int, dc: int)
    requires
        0 <= i < s.len(),
        s[i] != '"',
        ref_shape(s, i).2 > 0,
    ensures
        shifted(s, i, false, dr, dc) == match ref_outcome(s, i, dr, dc) {
            None => s.subrange(i, ref_shape(s, i).5),
            Some(t) => t,
        } + shifted(s, ref_shape(s, i).5, false, dr, dc),
{
    reveal(shifted);
}

/// Copies `s[a..b]` onto the end of `out`.
fn push_range(out: &mut Vec<char>, s: &Vec<char>, a: usize, b: usize)
    requires
        a <= b <= s@.len(),
    ensures
        final(out)@ == old(out)@ + s@.subrange(a as int, b as int),
{
    let mut k: usize = a;
    while k < b
        invariant
            a <= k <= b,
            b <= s@.len(),
            out@ == old(out)@ + s@.subrange(a as int, k as int),
        decreases b - k,
    {
        out.push(s[k]);
        proof {
            assert(s@.subrange(a as int, k + 1) =~= s@.subrange(a as int, k as int).push(s@[k as int]));
        }
        k += 1;
    }
}

/// Expands a shared formula into a follower cell `(row_delta, column_delta)`
/// away from its anchor: quoted text is kept, and relative axes of the A1
/// references move while `$`-absolute axes stay.
#[verifier::rlimit(40)]
pub fn translate_shared_formula(formula: &str, row_delta: i64, column_delta: i64) -> (res: String)
    ensures
        res@ == shifted(formula@, 0, false, row_delta as int, column_delta as int),
{
    let chars = chars_of(formula);
    let n = chars.len();
    let ghost dr = row_delta as int;
    let ghost dc = column_delta as int;
    let ghost whole = shifted(chars@, 0, false, dr, dc);
    let mut out: Vec<char> = Vec::new();
    let mut index: usize = 0;
    let mut in_string = false;
    while index < n
        invariant
            n == chars@.len(),
            chars@ == formula@,
            index <= n,
            dr == row_delta as int,
            dc == column_delta as int,
            whole == shifted(chars@, 0, false, dr, dc),
            out@ + shifted(chars@, index as int, in_string, dr, dc) == whole,
        decreases n - index,
    {
        let ghost before = out@;
        let ghost i = index as int;
        if chars[index] == '"' {
            proof {
                lemma_shift_quote(chars@, i, in_string, dr, dc);
            }
            in_string = !in_string;
            out.push('"');
            index += 1;
            proof {
                assert(out@ =~= before + seq!['"']);
            }
            continue;
        }
        if in_string {
            proof {
                lemma_shift_quoted(chars@, i, dr, dc);
            }
            out.push(chars[index]);
            index += 1;
            proof {
                assert(out@ =~= before + seq![chars@[i]]);
            }
            continue;
        }
        proof {
            lemma_ref_shape(chars@, i);
        }
        let start = index;
        let cabs = chars[index] == '$';
        let l0 = if cabs { index + 1 } else { index };
        let le = alpha_run_end(&chars, l0);
        if le == l0 {
            proof {
                lemma_shift_plain(chars@, i, dr, dc);
            }
            out.push(chars[start]);
            index = start + 1;
            proof {
                assert(out@ =~= before + seq![chars@[i]]);
            }
            continue;
        }
        let rabs = le < n && chars[le] == '$';
        let r0 = if rabs { le + 1 } else { le };
        let end = digit_run_end(&chars, r0);
        proof {
            assert(ref_shape(chars@, i) == (cabs, l0 as int, le - l0, rabs, r0 as int, end as int));
            lemma_shift_ref(chars@, i, dr, dc);
        }
        let before_ident = start > 0 && is_alnum_exec(chars[start - 1]) && chars[start - 1] != '!';
        let after_ident = end < n && (is_alnum_exec(chars[end]) || chars[end] == '_' || chars[end] == '!'
            || chars[end] == '(');
        if end == r0 || before_ident || after_ident {
            push_range(&mut out, &chars, start, end);
            index = end;
            continue;
        }
        let mut cleaned: Vec<char> = Vec::new();
        push_range(&mut cleaned, &chars, l0, le);
        push_range(&mut cleaned, &chars, r0, end);
        proof {
            assert(cleaned@ =~= chars@.subrange(l0 as int, le as int) + chars@.subrange(r0 as int, end as int));
        }
        match parse_a1_chars(&cleaned) {
            None => {
                push_range(&mut out, &chars, start, end);
                index = end;
            },
            Some((row, column)) => {
                let tr: i128 = if rabs { row as i128 } else { row as i128 + row_delta as i128 };
                let tc: i128 = if cabs { column as i128 } else { column as i128 + column_delta as i128 };
                if tr < 0 || tc < 0 {
                    push_text(&mut out, "#REF!");
                } else {
                    if cabs {
                        out.push('$');
                    }
                    push_chars(&mut out, &column_letters((tc as u32) as u64));
                    if rabs {
                        out.push('$');
                    }
                    push_chars(&mut out, &decimal_chars((tr + 1) as u64));
                }
                index = end;
                proof {
                    assert(out@ =~= before + moved_ref(cabs, rabs, row, column, dr, dc));
                }
            },
        }
    }
    proof {
        lemma_shift_end(chars@, index as int, in_string, dr, dc);
        assert(out@ =~= whole);
    }
    string_of(&out)
}


/// A worksheet `<c>` element as read so far.
#[derive(Debug, Default)]
pub struct RawCell {
    pub reference: Option<String>,
    pub cell_type: Option<String>,
    pub style_index: Option<usize>,
    pub formula_type: Option<String>,
    pub formula_index: Option<u32>,
    pub formula: Option<String>,
    pub value: Option<String>,
    pub inline_value: String,
}

/// Which text of a cell an XML text event belongs to.
#[derive(Debug, Clone, Copy, PartialEq, Eq)]
pub enum CellTextField {
    Formula,
    Value,
    Inline,
}

/// The text an optional string holds, followed by `t`.
pub open spec fn appended(o: Option<String>, t: Seq<char>) -> Seq<char> {
    match o {
        Some(s) => s@ + t,
        None => t,
    }
}

/// `a` and `b` agree on every field but the formula's type and text.
pub open spec fn same_but_formula(a: RawCell, b: RawCell) -> bool {
    &&& a.reference == b.reference
    &&& a.cell_type == b.cell_type
    &&& a.style_index == b.style_index
    &&& a.formula_index == b.formula_index
    &&& a.value == b.value
    &&& a.inline_value == b.inline_value
}

/// A text followed by `t`.
fn extended(o: Option<String>, text: &str) -> (res: String)
    ensures
        res@ == appended(o, text@),
{
    let mut v: Vec<char> = match o {
        Some(s) => chars_of(s.as_str()),
        None => Vec::new(),
    };
    push_text(&mut v, text);
    string_of(&v)
}

/// Adds the text of an XML text event to the field of the open cell it
/// belongs to; without an open cell or a field, nothing changes.
pub fn append_cell_text(current: &mut Option<RawCell>, field: Option<CellTextField>, text: &str)
    ensures
        *old(current) is None ==> *final(current) is None,
        *old(current) matches Some(c) ==> (*final(current) matches Some(d) && match field {
            Some(CellTextField::Formula) => same_but_formula(c, d) && d.formula_type == c.formula_type
                && (d.formula matches Some(f) && f@ == appended(c.formula, text@)),
            Some(CellTextField::Value) => d.reference == c.reference && d.cell_type == c.cell_type
                && d.style_index == c.style_index && d.formula_type == c.formula_type && d.formula_index
                == c.formula_index && d.formula == c.formula && d.inline_value == c.inline_value && (d.value matches Some(
                v,
            ) && v@ == appended(c.value, text@)),
            Some(CellTextField::Inline) => d.reference == c.reference && d.cell_type == c.cell_type
                && d.style_index == c.style_index && d.formula_type == c.formula_type && d.formula_index
                == c.formula_index && d.formula == c.formula && d.value == c.value && d.inline_value@
                == c.inline_value@ + text@,
            None => d == c,
        }),
{
    match current.take() {
        None => {},
        Some(cell) => {
            let mut cell = cell;
            match field {
                Some(CellTextField::Formula) => {
                    let f = extended(cell.formula.take(), text);
                    cell.formula = Some(f);
                },
                Some(CellTextField::Value) => {
                    let v = extended(cell.value.take(), text);
                    cell.value = Some(v);
                },
                Some(CellTextField::Inline) => {
                    let mut t = chars_of(cell.inline_value.as_str());
                    push_text(&mut t, text);
                    cell.inline_value = string_of(&t);
                },
                None => {},
            }
            *current = Some(cell);
        },
    }
}

pub const MISSING_REFERENCE: &'static str = "shared formula cell 缺少 r";

pub const SHARED_FORMULA_OPEN: &'static str = "shared formula ";

pub const MISSING_INDEX_CLOSE: &'static str = " 缺少 si";

pub const UNKNOWN_INDEX_MIDDLE: &'static str = " 引用未知 si=";

/// The optional string holds exactly `t`.
pub open spec fn holds_text(o: Option<String>, t: Seq<char>) -> bool {
    o matches Some(s) && s@ == t
}

/// Resolves a cell's shared formula: an anchor (with formula text)
/// registers its formula under its index, a follower receives the anchor's
/// formula moved by its offset from the anchor; either way the formula
/// becomes a normal one. Other cells are left as they are.
pub fn resolve_shared_formula(raw: &mut RawCell, shared: &mut HashMap<u32, ((u32, u32), String)>) -> (res: Result<
    (),
    XlsxError,
>)
    ensures
        !holds_text(old(raw).formula_type, "shared"@) ==> res is Ok && *final(raw) == *old(raw) && final(shared)@
            == old(shared)@,
        holds_text(old(raw).formula_type, "shared"@) ==> match old(raw).reference {
            None => (res matches Err(XlsxError::InvalidPart(m)) && m@ == MISSING_REFERENCE@) && *final(raw)
                == *old(raw) && final(shared)@ == old(shared)@,
            Some(r) => match spec_parse_a1(r@) {
                None => (res matches Err(XlsxError::InvalidCellReference(m)) && m@ == r@) && *final(raw) == *old(raw)
                    && final(shared)@ == old(shared)@,
                Some(address) => match old(raw).formula_index {
                    None => (res matches Err(XlsxError::InvalidPart(m)) && m@ == SHARED_FORMULA_OPEN@ + r@
                        + MISSING_INDEX_CLOSE@) && *final(raw) == *old(raw) && final(shared)@ == old(shared)@,
                    Some(index) => if old(raw).formula matches Some(f) && f@.len() > 0 {
                        &&& res is Ok
                        &&& final(shared)@ == old(shared)@.insert(index, (address, old(raw).formula->Some_0))
                        &&& same_but_formula(*old(raw), *final(raw))
                        &&& final(raw).formula == old(raw).formula
                        &&& holds_text(final(raw).formula_type, "normal"@)
                    } else if !old(shared)@.contains_key(index) {
                        &&& (res matches Err(XlsxError::InvalidPart(m)) && m@ == SHARED_FORMULA_OPEN@ + r@
                            + UNKNOWN_INDEX_MIDDLE@ + decimal(index as nat))
                        &&& *final(raw) == *old(raw)
                        &&& final(shared)@ == old(shared)@
                    } else {
                        let (origin, f) = old(shared)@[index];
                        &&& res is Ok
                        &&& final(shared)@ == old(shared)@
                        &&& same_but_formula(*old(raw), *final(raw))
                        &&& holds_text(
                            final(raw).formula,
                            shifted(f@, 0, false, address.0 - origin.0, address.1 - origin.1),
                        )
                        &&& holds_text(final(raw).formula_type, "normal"@)
                    },
                },
            },
        },
{
    broadcast use vstd::std_specs::hash::group_hash_axioms;
    let is_shared = match &raw.formula_type {
        Some(t) => same_text(t.as_str(), "shared"),
        None => false,
    };
    if !is_shared {
        return Ok(());
    }
    let reference: String = match &raw.reference {
        Some(r) => r.clone(),
        None => {
            return Err(XlsxError::InvalidPart(String::from_str(MISSING_REFERENCE)));
        },
    };
    let address = match parse_a1(reference.as_str()) {
        Ok(a) => a,
        Err(e) => {
            return Err(e);
        },
    };
    let index = match raw.formula_index {
        Some(i) => i,
        None => {
            let mut message: Vec<char> = Vec::new();
            push_text(&mut message, SHARED_FORMULA_OPEN);
            push_text(&mut message, reference.as_str());
            push_text(&mut message, MISSING_INDEX_CLOSE);
            return Err(XlsxError::InvalidPart(string_of(&message)));
        },
    };
    let anchor = match &raw.formula {
        Some(f) => !f.as_str().is_empty(),
        None => false,
    };
    if anchor {
        let formula = match &raw.formula {
            Some(f) => f.clone(),
            None => String::new(),
        };
        shared.insert(index, (address, formula));
    } else {
        let translated = match shared.get(&index) {
            None => {
                let mut message: Vec<char> = Vec::new();
                push_text(&mut message, SHARED_FORMULA_OPEN);
                push_text(&mut message, reference.as_str());
                push_text(&mut message, UNKNOWN_INDEX_MIDDLE);
                push_chars(&mut message, &decimal_chars(index as u64));
                return Err(XlsxError::InvalidPart(string_of(&message)));
            },
            Some(entry) => {
                let origin = entry.0;
                let row_delta: i64 = address.0 as i64 - origin.0 as i64;
                let column_delta: i64 = address.1 as i64 - origin.1 as i64;
                translate_shared_formula(entry.1.as_str(), row_delta, column_delta)
            },
        };
        raw.formula = Some(translated);
    }
    raw.formula_type = Some(String::from_str("normal"));
    Ok(())
}

} // verus!
