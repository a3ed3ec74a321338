//! Static catalogs: the supported formula functions, the spreadsheet
//! capabilities and the command registries of the spreadsheet and whiteboard
//! engines.

use vstd::prelude::*;

verus! {

/// Version of the capability catalog wire format.
pub const SPREADSHEET_CAPABILITY_VERSION: u16 = 1;

/// Namespace every spreadsheet capability and command lives in.
pub const SPREADSHEET_NAMESPACE: &'static str = "spreadsheet";

#[derive(Debug, Clone, Copy, PartialEq, Eq)]
pub enum SpreadsheetFunctionCategory {
    Aggregate,
    Math,
    Logic,
    Text,
    Statistics,
    DateTime,
    Lookup,
    Financial,
}

#[derive(Debug, Clone, Copy, PartialEq, Eq)]
pub struct SpreadsheetFunctionDescriptor {
    pub name: &'static str,
    pub category: SpreadsheetFunctionCategory,
    pub volatile: bool,
}

/// The formula support matrix, in catalog order.
pub open spec fn function_table() -> Seq<SpreadsheetFunctionDescriptor> {
    seq![
        SpreadsheetFunctionDescriptor { name: "SUM", category: SpreadsheetFunctionCategory::Aggregate, volatile: false },
        SpreadsheetFunctionDescriptor { name: "AVERAGE", category: SpreadsheetFunctionCategory::Aggregate, volatile: false },
        SpreadsheetFunctionDescriptor { name: "MIN", category: SpreadsheetFunctionCategory::Aggregate, volatile: false },
        SpreadsheetFunctionDescriptor { name: "MAX", category: SpreadsheetFunctionCategory::Aggregate, volatile: false },
        SpreadsheetFunctionDescriptor { name: "COUNT", category: SpreadsheetFunctionCategory::Aggregate, volatile: false },
        SpreadsheetFunctionDescriptor { name: "ROUND", category: SpreadsheetFunctionCategory::Math, volatile: false },
        SpreadsheetFunctionDescriptor { name: "ROUNDUP", category: SpreadsheetFunctionCategory::Math, volatile: false },
        SpreadsheetFunctionDescriptor { name: "ROUNDDOWN", category: SpreadsheetFunctionCategory::Math, volatile: false },
        SpreadsheetFunctionDescriptor { name: "ABS", category: SpreadsheetFunctionCategory::Math, volatile: false },
        SpreadsheetFunctionDescriptor { name: "INT", category: SpreadsheetFunctionCategory::Math, volatile: false },
        SpreadsheetFunctionDescriptor { name: "MOD", category: SpreadsheetFunctionCategory::Math, volatile: false },
        SpreadsheetFunctionDescriptor { name: "POWER", category: SpreadsheetFunctionCategory::Math, volatile: false },
        SpreadsheetFunctionDescriptor { name: "SQRT", category: SpreadsheetFunctionCategory::Math, volatile: false },
        SpreadsheetFunctionDescriptor { name: "CEILING", category: SpreadsheetFunctionCategory::Math, volatile: false },
        SpreadsheetFunctionDescriptor { name: "FLOOR", category: SpreadsheetFunctionCategory::Math, volatile: false },
        SpreadsheetFunctionDescriptor { name: "AND", category: SpreadsheetFunctionCategory::Logic, volatile: false },
        SpreadsheetFunctionDescriptor { name: "OR", category: SpreadsheetFunctionCategory::Logic, volatile: false },
        SpreadsheetFunctionDescriptor { name: "NOT", category: SpreadsheetFunctionCategory::Logic, volatile: false },
        SpreadsheetFunctionDescriptor { name: "IF", category: SpreadsheetFunctionCategory::Logic, volatile: false },
        SpreadsheetFunctionDescriptor { name: "IFERROR", category: SpreadsheetFunctionCategory::Logic, volatile: false },
        SpreadsheetFunctionDescriptor { name: "CONCAT", category: SpreadsheetFunctionCategory::Text, volatile: false },
        SpreadsheetFunctionDescriptor { name: "LEFT", category: SpreadsheetFunctionCategory::Text, volatile: false },
        SpreadsheetFunctionDescriptor { name: "RIGHT", category: SpreadsheetFunctionCategory::Text, volatile: false },
        SpreadsheetFunctionDescriptor { name: "MID", category: SpreadsheetFunctionCategory::Text, volatile: false },
        SpreadsheetFunctionDescriptor { name: "LEN", category: SpreadsheetFunctionCategory::Text, volatile: false },
        SpreadsheetFunctionDescriptor { name: "UPPER", category: SpreadsheetFunctionCategory::Text, volatile: false },
        SpreadsheetFunctionDescriptor { name: "LOWER", category: SpreadsheetFunctionCategory::Text, volatile: false },
        SpreadsheetFunctionDescriptor { name: "TRIM", category: SpreadsheetFunctionCategory::Text, volatile: false },
        SpreadsheetFunctionDescriptor { name: "SUBSTITUTE", category: SpreadsheetFunctionCategory::Text, volatile: false },
        SpreadsheetFunctionDescriptor { name: "REPLACE", category: SpreadsheetFunctionCategory::Text, volatile: false },
        SpreadsheetFunctionDescriptor { name: "FIND", category: SpreadsheetFunctionCategory::Text, volatile: false },
        SpreadsheetFunctionDescriptor { name: "SEARCH", category: SpreadsheetFunctionCategory::Text, volatile: false },
        SpreadsheetFunctionDescriptor { name: "EXACT", category: SpreadsheetFunctionCategory::Text, volatile: false },
        SpreadsheetFunctionDescriptor { name: "TEXTJOIN", category: SpreadsheetFunctionCategory::Text, volatile: false },
        SpreadsheetFunctionDescriptor { name: "COUNTA", category: SpreadsheetFunctionCategory::Statistics, volatile: false },
        SpreadsheetFunctionDescriptor { name: "COUNTIF", category: SpreadsheetFunctionCategory::Statistics, volatile: false },
        SpreadsheetFunctionDescriptor { name: "SUMIF", category: SpreadsheetFunctionCategory::Statistics, volatile: false },
        SpreadsheetFunctionDescriptor { name: "AVERAGEIF", category: SpreadsheetFunctionCategory::Statistics, volatile: false },
        SpreadsheetFunctionDescriptor { name: "MEDIAN", category: SpreadsheetFunctionCategory::Statistics, volatile: false },
        SpreadsheetFunctionDescriptor { name: "STDEV.S", category: SpreadsheetFunctionCategory::Statistics, volatile: false },
        SpreadsheetFunctionDescriptor { name: "LARGE", category: SpreadsheetFunctionCategory::Statistics, volatile: false },
        SpreadsheetFunctionDescriptor { name: "SMALL", category: SpreadsheetFunctionCategory::Statistics, volatile: false },
        SpreadsheetFunctionDescriptor { name: "TODAY", category: SpreadsheetFunctionCategory::DateTime, volatile: true },
        SpreadsheetFunctionDescriptor { name: "NOW", category: SpreadsheetFunctionCategory::DateTime, volatile: true },
        SpreadsheetFunctionDescriptor { name: "DATE", category: SpreadsheetFunctionCategory::DateTime, volatile: false },
        SpreadsheetFunctionDescriptor { name: "YEAR", category: SpreadsheetFunctionCategory::DateTime, volatile: false },
        SpreadsheetFunctionDescriptor { name: "MONTH", category: SpreadsheetFunctionCategory::DateTime, volatile: false },
        SpreadsheetFunctionDescriptor { name: "DAY", category: SpreadsheetFunctionCategory::DateTime, volatile: false },
        SpreadsheetFunctionDescriptor { name: "VLOOKUP", category: SpreadsheetFunctionCategory::Lookup, volatile: false },
        SpreadsheetFunctionDescriptor { name: "HLOOKUP", category: SpreadsheetFunctionCategory::Lookup, volatile: false },
        SpreadsheetFunctionDescriptor { name: "MATCH", category: SpreadsheetFunctionCategory::Lookup, volatile: false },
        SpreadsheetFunctionDescriptor { name: "INDEX", category: SpreadsheetFunctionCategory::Lookup, volatile: false },
        SpreadsheetFunctionDescriptor { name: "XLOOKUP", category: SpreadsheetFunctionCategory::Lookup, volatile: false },
        SpreadsheetFunctionDescriptor { name: "PV", category: SpreadsheetFunctionCategory::Financial, volatile: false },
        SpreadsheetFunctionDescriptor { name: "FV", category: SpreadsheetFunctionCategory::Financial, volatile: false },
        SpreadsheetFunctionDescriptor { name: "PMT", category: SpreadsheetFunctionCategory::Financial, volatile: false },
        SpreadsheetFunctionDescriptor { name: "NPV", category: SpreadsheetFunctionCategory::Financial, volatile: false },
        SpreadsheetFunctionDescriptor { name: "IRR", category: SpreadsheetFunctionCategory::Financial, volatile: false },
    ]
}

/// Explicit formula support matrix; names outside it are unsupported functions.
pub fn spreadsheet_function_catalog() -> (res: Vec<SpreadsheetFunctionDescriptor>)
    ensures
        res@ == function_table(),
{
    let v = vec![
        SpreadsheetFunctionDescriptor { name: "SUM", category: SpreadsheetFunctionCategory::Aggregate, volatile: false },
        SpreadsheetFunctionDescriptor { name: "AVERAGE", category: SpreadsheetFunctionCategory::Aggregate, volatile: false },
        SpreadsheetFunctionDescriptor { name: "MIN", category: SpreadsheetFunctionCategory::Aggregate, volatile: false },
        SpreadsheetFunctionDescriptor { name: "MAX", category: SpreadsheetFunctionCategory::Aggregate, volatile: false },
        SpreadsheetFunctionDescriptor { name: "COUNT", category: SpreadsheetFunctionCategory::Aggregate, volatile: false },
        SpreadsheetFunctionDescriptor { name: "ROUND", category: SpreadsheetFunctionCategory::Math, volatile: false },
        SpreadsheetFunctionDescriptor { name: "ROUNDUP", category: SpreadsheetFunctionCategory::Math, volatile: false },
        SpreadsheetFunctionDescriptor { name: "ROUNDDOWN", category: SpreadsheetFunctionCategory::Math, volatile: false },
        SpreadsheetFunctionDescriptor { name: "ABS", category: SpreadsheetFunctionCategory::Math, volatile: false },
        SpreadsheetFunctionDescriptor { name: "INT", category: SpreadsheetFunctionCategory::Math, volatile: false },
        SpreadsheetFunctionDescriptor { name: "MOD", category: SpreadsheetFunctionCategory::Math, volatile: false },
        SpreadsheetFunctionDescriptor { name: "POWER", category: SpreadsheetFunctionCategory::Math, volatile: false },
        SpreadsheetFunctionDescriptor { name: "SQRT", category: SpreadsheetFunctionCategory::Math, volatile: false },
        SpreadsheetFunctionDescriptor { name: "CEILING", category: SpreadsheetFunctionCategory::Math, volatile: false },
        SpreadsheetFunctionDescriptor { name: "FLOOR", category: SpreadsheetFunctionCategory::Math, volatile: false },
        SpreadsheetFunctionDescriptor { name: "AND", category: SpreadsheetFunctionCategory::Logic, volatile: false },
        SpreadsheetFunctionDescriptor { name: "OR", category: SpreadsheetFunctionCategory::Logic, volatile: false },
        SpreadsheetFunctionDescriptor { name: "NOT", category: SpreadsheetFunctionCategory::Logic, volatile: false },
        SpreadsheetFunctionDescriptor { name: "IF", category: SpreadsheetFunctionCategory::Logic, volatile: false },
        SpreadsheetFunctionDescriptor { name: "IFERROR", category: SpreadsheetFunctionCategory::Logic, volatile: false },
        SpreadsheetFunctionDescriptor { name: "CONCAT", category: SpreadsheetFunctionCategory::Text, volatile: false },
        SpreadsheetFunctionDescriptor { name: "LEFT", category: SpreadsheetFunctionCategory::Text, volatile: false },
        SpreadsheetFunctionDescriptor { name: "RIGHT", category: SpreadsheetFunctionCategory::Text, volatile: false },
        SpreadsheetFunctionDescriptor { name: "MID", category: SpreadsheetFunctionCategory::Text, volatile: false },
        SpreadsheetFunctionDescriptor { name: "LEN", category: SpreadsheetFunctionCategory::Text, volatile: false },
        SpreadsheetFunctionDescriptor { name: "UPPER", category: SpreadsheetFunctionCategory::Text, volatile: false },
        SpreadsheetFunctionDescriptor { name: "LOWER", category: SpreadsheetFunctionCategory::Text, volatile: false },
        SpreadsheetFunctionDescriptor { name: "TRIM", category: SpreadsheetFunctionCategory::Text, volatile: false },
        SpreadsheetFunctionDescriptor { name: "SUBSTITUTE", category: SpreadsheetFunctionCategory::Text, volatile: false },
        SpreadsheetFunctionDescriptor { name: "REPLACE", category: SpreadsheetFunctionCategory::Text, volatile: false },
        SpreadsheetFunctionDescriptor { name: "FIND", category: SpreadsheetFunctionCategory::Text, volatile: false },
        SpreadsheetFunctionDescriptor { name: "SEARCH", category: SpreadsheetFunctionCategory::Text, volatile: false },
        SpreadsheetFunctionDescriptor { name: "EXACT", category: SpreadsheetFunctionCategory::Text, volatile: false },
        SpreadsheetFunctionDescriptor { name: "TEXTJOIN", category: SpreadsheetFunctionCategory::Text, volatile: false },
        SpreadsheetFunctionDescriptor { name: "COUNTA", category: SpreadsheetFunctionCategory::Statistics, volatile: false },
        SpreadsheetFunctionDescriptor { name: "COUNTIF", category: SpreadsheetFunctionCategory::Statistics, volatile: false },
        SpreadsheetFunctionDescriptor { name: "SUMIF", category: SpreadsheetFunctionCategory::Statistics, volatile: false },
        SpreadsheetFunctionDescriptor { name: "AVERAGEIF", category: SpreadsheetFunctionCategory::Statistics, volatile: false },
        SpreadsheetFunctionDescriptor { name: "MEDIAN", category: SpreadsheetFunctionCategory::Statistics, volatile: false },
        SpreadsheetFunctionDescriptor { name: "STDEV.S", category: SpreadsheetFunctionCategory::Statistics, volatile: false },
        SpreadsheetFunctionDescriptor { name: "LARGE", category: SpreadsheetFunctionCategory::Statistics, volatile: false },
        SpreadsheetFunctionDescriptor { name: "SMALL", category: SpreadsheetFunctionCategory::Statistics, volatile: false },
        SpreadsheetFunctionDescriptor { name: "TODAY", category: SpreadsheetFunctionCategory::DateTime, volatile: true },
        SpreadsheetFunctionDescriptor { name: "NOW", category: SpreadsheetFunctionCategory::DateTime, volatile: true },
        SpreadsheetFunctionDescriptor { name: "DATE", category: SpreadsheetFunctionCategory::DateTime, volatile: false },
        SpreadsheetFunctionDescriptor { name: "YEAR", category: SpreadsheetFunctionCategory::DateTime, volatile: false },
        SpreadsheetFunctionDescriptor { name: "MONTH", category: SpreadsheetFunctionCategory::DateTime, volatile: false },
        SpreadsheetFunctionDescriptor { name: "DAY", category: SpreadsheetFunctionCategory::DateTime, volatile: false },
        SpreadsheetFunctionDescriptor { name: "VLOOKUP", category: SpreadsheetFunctionCategory::Lookup, volatile: false },
        SpreadsheetFunctionDescriptor { name: "HLOOKUP", category: SpreadsheetFunctionCategory::Lookup, volatile: false },
        SpreadsheetFunctionDescriptor { name: "MATCH", category: SpreadsheetFunctionCategory::Lookup, volatile: false },
        SpreadsheetFunctionDescriptor { name: "INDEX", category: SpreadsheetFunctionCategory::Lookup, volatile: false },
        SpreadsheetFunctionDescriptor { name: "XLOOKUP", category: SpreadsheetFunctionCategory::Lookup, volatile: false },
        SpreadsheetFunctionDescriptor { name: "PV", category: SpreadsheetFunctionCategory::Financial, volatile: false },
        SpreadsheetFunctionDescriptor { name: "FV", category: SpreadsheetFunctionCategory::Financial, volatile: false },
        SpreadsheetFunctionDescriptor { name: "PMT", category: SpreadsheetFunctionCategory::Financial, volatile: false },
        SpreadsheetFunctionDescriptor { name: "NPV", category: SpreadsheetFunctionCategory::Financial, volatile: false },
        SpreadsheetFunctionDescriptor { name: "IRR", category: SpreadsheetFunctionCategory::Financial, volatile: false },
    ];
    assert(v@ =~= function_table());
    v
}

/// `TODAY` and `NOW` are the only volatile functions of the catalog.
pub proof fn law_only_today_and_now_are_volatile(i: int)
    requires
        0 <= i < function_table().len(),
    ensures
        function_table()[i].volatile <==> (function_table()[i].name@ == "TODAY"@
            || function_table()[i].name@ == "NOW"@),
{
    reveal_strlit("SUM");
    reveal_strlit("AVERAGE");
    reveal_strlit("MIN");
    reveal_strlit("MAX");
    reveal_strlit("COUNT");
    reveal_strlit("ROUND");
    reveal_strlit("ROUNDUP");
    reveal_strlit("ROUNDDOWN");
    reveal_strlit("ABS");
    reveal_strlit("INT");
    reveal_strlit("MOD");
    reveal_strlit("POWER");
    reveal_strlit("SQRT");
    reveal_strlit("CEILING");
    reveal_strlit("FLOOR");
    reveal_strlit("AND");
    reveal_strlit("OR");
    reveal_strlit("NOT");
    reveal_strlit("IF");
    reveal_strlit("IFERROR");
    reveal_strlit("CONCAT");
    reveal_strlit("LEFT");
    reveal_strlit("RIGHT");
    reveal_strlit("MID");
    reveal_strlit("LEN");
    reveal_strlit("UPPER");
    reveal_strlit("LOWER");
    reveal_strlit("TRIM");
    reveal_strlit("SUBSTITUTE");
    reveal_strlit("REPLACE");
    reveal_strlit("FIND");
    reveal_strlit("SEARCH");
    reveal_strlit("EXACT");
    reveal_strlit("TEXTJOIN");
    reveal_strlit("COUNTA");
    reveal_strlit("COUNTIF");
    reveal_strlit("SUMIF");
    reveal_strlit("AVERAGEIF");
    reveal_strlit("MEDIAN");
    reveal_strlit("STDEV.S");
    reveal_strlit("LARGE");
    reveal_strlit("SMALL");
    reveal_strlit("TODAY");
    reveal_strlit("NOW");
    reveal_strlit("DATE");
    reveal_strlit("YEAR");
    reveal_strlit("MONTH");
    reveal_strlit("DAY");
    reveal_strlit("VLOOKUP");
    reveal_strlit("HLOOKUP");
    reveal_strlit("MATCH");
    reveal_strlit("INDEX");
    reveal_strlit("XLOOKUP");
    reveal_strlit("PV");
    reveal_strlit("FV");
    reveal_strlit("PMT");
    reveal_strlit("NPV");
    reveal_strlit("IRR");
    if i == 0 {
            assert(function_table()[0].name@.len() != "TODAY"@.len());
            assert(function_table()[0].name@[0] != "NOW"@[0]);
    }
    if i == 1 {
            assert(function_table()[1].name@.len() != "TODAY"@.len());
            assert(function_table()[1].name@.len() != "NOW"@.len());
    }
    if i == 2 {
            assert(function_table()[2].name@.len() != "TODAY"@.len());
            assert(function_table()[2].name@[0] != "NOW"@[0]);
    }
    if i == 3 {
            assert(function_table()[3].name@.len() != "TODAY"@.len());
            assert(function_table()[3].name@[0] != "NOW"@[0]);
    }
    if i == 4 {
            assert(function_table()[4].name@[0] != "TODAY"@[0]);
            assert(function_table()[4].name@.len() != "NOW"@.len());
    }
    if i == 5 {
            assert(function_table()[5].name@[0] != "TODAY"@[0]);
            assert(function_table()[5].name@.len() != "NOW"@.len());
    }
    if i == 6 {
            assert(function_table()[6].name@.len() != "TODAY"@.len());
            assert(function_table()[6].name@.len() != "NOW"@.len());
    }
    if i == 7 {
            assert(function_table()[7].name@.len() != "TODAY"@.len());
            assert(function_table()[7].name@.len() != "NOW"@.len());
    }
    if i == 8 {
            assert(function_table()[8].name@.len() != "TODAY"@.len());
            assert(function_table()[8].name@[0] != "NOW"@[0]);
    }
    if i == 9 {
            assert(function_table()[9].name@.len() != "TODAY"@.len());
            assert(function_table()[9].name@[0] != "NOW"@[0]);
    }
    if i == 10 {
            assert(function_table()[10].name@.len() != "TODAY"@.len());
            assert(function_table()[10].name@[0] != "NOW"@[0]);
    }
    if i == 11 {
            assert(function_table()[11].name@[0] != "TODAY"@[0]);
            assert(function_table()[11].name@.len() != "NOW"@.len());
    }
    if i == 12 {
            assert(function_table()[12].name@.len() != "TODAY"@.len());
            assert(function_table()[12].name@.len() != "NOW"@.len());
    }
    if i == 13 {
            assert(function_table()[13].name@.len() != "TODAY"@.len());
            assert(function_table()[13].name@.len() != "NOW"@.len());
    }
    if i == 14 {
            assert(function_table()[14].name@[0] != "TODAY"@[0]);
            assert(function_table()[14].name@.len() != "NOW"@.len());
    }
    if i == 15 {
            assert(function_table()[15].name@.len() != "TODAY"@.len());
            assert(function_table()[15].name@[0] != "NOW"@[0]);
    }
    if i == 16 {
            assert(function_table()[16].name@.len() != "TODAY"@.len());
            assert(function_table()[16].name@.len() != "NOW"@.len());
    }
    if i == 17 {
            assert(function_table()[17].name@.len() != "TODAY"@.len());
            assert(function_table()[17].name@[2] != "NOW"@[2]);
    }
    if i == 18 {
            assert(function_table()[18].name@.len() != "TODAY"@.len());
            assert(function_table()[18].name@.len() != "NOW"@.len());
    }
    if i == 19 {
            assert(function_table()[19].name@.len() != "TODAY"@.len());
            assert(function_table()[19].name@.len() != "NOW"@.len());
    }
    if i == 20 {
            assert(function_table()[20].name@.len() != "TODAY"@.len());
            assert(function_table()[20].name@.len() != "NOW"@.len());
    }
    if i == 21 {
            assert(function_table()[21].name@.len() != "TODAY"@.len());
            assert(function_table()[21].name@.len() != "NOW"@.len());
    }
    if i == 22 {
            assert(function_table()[22].name@[0] != "TODAY"@[0]);
            assert(function_table()[22].name@.len() != "NOW"@.len());
    }
    if i == 23 {
            assert(function_table()[23].name@.len() != "TODAY"@.len());
            assert(function_table()[23].name@[0] != "NOW"@[0]);
    }
    if i == 24 {
            assert(function_table()[24].name@.len() != "TODAY"@.len());
            assert(function_table()[24].name@[0] != "NOW"@[0]);
    }
    if i == 25 {
            assert(function_table()[25].name@[0] != "TODAY"@[0]);
            assert(function_table()[25].name@.len() != "NOW"@.len());
    }
    if i == 26 {
            assert(function_table()[26].name@[0] != "TODAY"@[0]);
            assert(function_table()[26].name@.len() != "NOW"@.len());
    }
    if i == 27 {
            assert(function_table()[27].name@.len() != "TODAY"@.len());
            assert(function_table()[27].name@.len() != "NOW"@.len());
    }
    if i == 28 {
            assert(function_table()[28].name@.len() != "TODAY"@.len());
            assert(function_table()[28].name@.len() != "NOW"@.len());
    }
    if i == 29 {
            assert(function_table()[29].name@.len() != "TODAY"@.len());
            assert(function_table()[29].name@.len() != "NOW"@.len());
    }
    if i == 30 {
            assert(function_table()[30].name@.len() != "TODAY"@.len());
            assert(function_table()[30].name@.len() != "NOW"@.len());
    }
    if i == 31 {
            assert(function_table()[31].name@.len() != "TODAY"@.len());
            assert(function_table()[31].name@.len() != "NOW"@.len());
    }
    if i == 32 {
            assert(function_table()[32].name@[0] != "TODAY"@[0]);
            assert(function_table()[32].name@.len() != "NOW"@.len());
    }
    if i == 33 {
            assert(function_table()[33].name@.len() != "TODAY"@.len());
            assert(function_table()[33].name@.len() != "NOW"@.len());
    }
    if i == 34 {
            assert(function_table()[34].name@.len() != "TODAY"@.len());
            assert(function_table()[34].name@.len() != "NOW"@.len());
    }
    if i == 35 {
            assert(function_table()[35].name@.len() != "TODAY"@.len());
            assert(function_table()[35].name@.len() != "NOW"@.len());
    }
    if i == 36 {
            assert(function_table()[36].name@[0] != "TODAY"@[0]);
            assert(function_table()[36].name@.len() != "NOW"@.len());
    }
    if i == 37 {
            assert(function_table()[37].name@.len() != "TODAY"@.len());
            assert(function_table()[37].name@.len() != "NOW"@.len());
    }
    if i == 38 {
            assert(function_table()[38].name@.len() != "TODAY"@.len());
            assert(function_table()[38].name@.len() != "NOW"@.len());
    }
    if i == 39 {
            assert(function_table()[39].name@.len() != "TODAY"@.len());
            assert(function_table()[39].name@.len() != "NOW"@.len());
    }
    if i == 40 {
            assert(function_table()[40].name@[0] != "TODAY"@[0]);
            assert(function_table()[40].name@.len() != "NOW"@.len());
    }
    if i == 41 {
            assert(function_table()[41].name@[0] != "TODAY"@[0]);
            assert(function_table()[41].name@.len() != "NOW"@.len());
    }
    if i == 42 {
    }
    if i == 43 {
    }
    if i == 44 {
            assert(function_table()[44].name@.len() != "TODAY"@.len());
            assert(function_table()[44].name@.len() != "NOW"@.len());
    }
    if i == 45 {
            assert(function_table()[45].name@.len() != "TODAY"@.len());
            assert(function_table()[45].name@.len() != "NOW"@.len());
    }
    if i == 46 {
            assert(function_table()[46].name@[0] != "TODAY"@[0]);
            assert(function_table()[46].name@.len() != "NOW"@.len());
    }
    if i == 47 {
            assert(function_table()[47].name@.len() != "TODAY"@.len());
            assert(function_table()[47].name@[0] != "NOW"@[0]);
    }
    if i == 48 {
            assert(function_table()[48].name@.len() != "TODAY"@.len());
            assert(function_table()[48].name@.len() != "NOW"@.len());
    }
    if i == 49 {
            assert(function_table()[49].name@.len() != "TODAY"@.len());
            assert(function_table()[49].name@.len() != "NOW"@.len());
    }
    if i == 50 {
            assert(function_table()[50].name@[0] != "TODAY"@[0]);
            assert(function_table()[50].name@.len() != "NOW"@.len());
    }
    if i == 51 {
            assert(function_table()[51].name@[0] != "TODAY"@[0]);
            assert(function_table()[51].name@.len() != "NOW"@.len());
    }
    if i == 52 {
            assert(function_table()[52].name@.len() != "TODAY"@.len());
            assert(function_table()[52].name@.len() != "NOW"@.len());
    }
    if i == 53 {
            assert(function_table()[53].name@.len() != "TODAY"@.len());
            assert(function_table()[53].name@.len() != "NOW"@.len());
    }
    if i == 54 {
            assert(function_table()[54].name@.len() != "TODAY"@.len());
            assert(function_table()[54].name@.len() != "NOW"@.len());
    }
    if i == 55 {
            assert(function_table()[55].name@.len() != "TODAY"@.len());
            assert(function_table()[55].name@[0] != "NOW"@[0]);
    }
    if i == 56 {
            assert(function_table()[56].name@.len() != "TODAY"@.len());
            assert(function_table()[56].name@[1] != "NOW"@[1]);
    }
    if i == 57 {
            assert(function_table()[57].name@.len() != "TODAY"@.len());
            assert(function_table()[57].name@[0] != "NOW"@[0]);
    }
}

#[derive(Debug, Clone, Copy, PartialEq, Eq)]
pub enum SpreadsheetCapability {
    EditCell,
    EditFormula,
    FormatCells,
    FreezePane,
    Filter,
    Sort,
    ConditionalFormat,
    DataValidation,
    MergeCells,
    InsertRows,
    InsertColumns,
    DeleteRows,
    DeleteColumns,
    History,
    SparseViewport,
    XlsxImport,
    XlsxExport,
}

impl SpreadsheetCapability {
    pub open spec fn spec_id(self) -> &'static str {
        match self {
            SpreadsheetCapability::EditCell => "spreadsheet.editCell",
            SpreadsheetCapability::EditFormula => "spreadsheet.editFormula",
            SpreadsheetCapability::FormatCells => "spreadsheet.formatCells",
            SpreadsheetCapability::FreezePane => "spreadsheet.freezePane",
            SpreadsheetCapability::Filter => "spreadsheet.filter",
            SpreadsheetCapability::Sort => "spreadsheet.sort",
            SpreadsheetCapability::ConditionalFormat => "spreadsheet.conditionalFormat",
            SpreadsheetCapability::DataValidation => "spreadsheet.dataValidation",
            SpreadsheetCapability::MergeCells => "spreadsheet.mergeCells",
            SpreadsheetCapability::InsertRows => "spreadsheet.insertRows",
            SpreadsheetCapability::InsertColumns => "spreadsheet.insertColumns",
            SpreadsheetCapability::DeleteRows => "spreadsheet.deleteRows",
            SpreadsheetCapability::DeleteColumns => "spreadsheet.deleteColumns",
            SpreadsheetCapability::History => "spreadsheet.history",
            SpreadsheetCapability::SparseViewport => "spreadsheet.sparseViewport",
            SpreadsheetCapability::XlsxImport => "spreadsheet.xlsxImport",
            SpreadsheetCapability::XlsxExport => "spreadsheet.xlsxExport",
        }
    }

    pub open spec fn spec_command_type_id(self) -> Option<&'static str> {
        match self {
            SpreadsheetCapability::EditCell => Some("spreadsheet.setCell"),
            SpreadsheetCapability::EditFormula => Some("spreadsheet.setCell"),
            SpreadsheetCapability::FormatCells => Some("spreadsheet.setCellStyle"),
            SpreadsheetCapability::FreezePane => Some("spreadsheet.setSheetMetadata"),
            SpreadsheetCapability::Filter => Some("spreadsheet.setSheetMetadata"),
            SpreadsheetCapability::Sort => Some("spreadsheet.sortRange"),
            SpreadsheetCapability::ConditionalFormat => Some("spreadsheet.setSheetMetadata"),
            SpreadsheetCapability::DataValidation => Some("spreadsheet.setSheetMetadata"),
            SpreadsheetCapability::MergeCells => Some("spreadsheet.mergeCells"),
            SpreadsheetCapability::InsertRows => Some("spreadsheet.insertRows"),
            SpreadsheetCapability::InsertColumns => Some("spreadsheet.insertColumns"),
            SpreadsheetCapability::DeleteRows => Some("spreadsheet.deleteRows"),
            SpreadsheetCapability::DeleteColumns => Some("spreadsheet.deleteColumns"),
            SpreadsheetCapability::History => Some("spreadsheet.history"),
            SpreadsheetCapability::SparseViewport => None,
            SpreadsheetCapability::XlsxImport => None,
            SpreadsheetCapability::XlsxExport => None,
        }
    }

    /// Stable wire identifier of the capability.
    pub fn id(self) -> (res: &'static str)
        ensures
            res == self.spec_id(),
    {
        match self {
            SpreadsheetCapability::EditCell => "spreadsheet.editCell",
            SpreadsheetCapability::EditFormula => "spreadsheet.editFormula",
            SpreadsheetCapability::FormatCells => "spreadsheet.formatCells",
            SpreadsheetCapability::FreezePane => "spreadsheet.freezePane",
            SpreadsheetCapability::Filter => "spreadsheet.filter",
            SpreadsheetCapability::Sort => "spreadsheet.sort",
            SpreadsheetCapability::ConditionalFormat => "spreadsheet.conditionalFormat",
            SpreadsheetCapability::DataValidation => "spreadsheet.dataValidation",
            SpreadsheetCapability::MergeCells => "spreadsheet.mergeCells",
            SpreadsheetCapability::InsertRows => "spreadsheet.insertRows",
            SpreadsheetCapability::InsertColumns => "spreadsheet.insertColumns",
            SpreadsheetCapability::DeleteRows => "spreadsheet.deleteRows",
            SpreadsheetCapability::DeleteColumns => "spreadsheet.deleteColumns",
            SpreadsheetCapability::History => "spreadsheet.history",
            SpreadsheetCapability::SparseViewport => "spreadsheet.sparseViewport",
            SpreadsheetCapability::XlsxImport => "spreadsheet.xlsxImport",
            SpreadsheetCapability::XlsxExport => "spreadsheet.xlsxExport",
        }
    }

    /// The command a capability is exercised through, if any.
    pub fn command_type_id(self) -> (res: Option<&'static str>)
        ensures
            res == self.spec_command_type_id(),
    {
        match self {
            SpreadsheetCapability::EditCell => Some("spreadsheet.setCell"),
            SpreadsheetCapability::EditFormula => Some("spreadsheet.setCell"),
            SpreadsheetCapability::FormatCells => Some("spreadsheet.setCellStyle"),
            SpreadsheetCapability::FreezePane => Some("spreadsheet.setSheetMetadata"),
            SpreadsheetCapability::Filter => Some("spreadsheet.setSheetMetadata"),
            SpreadsheetCapability::Sort => Some("spreadsheet.sortRange"),
            SpreadsheetCapability::ConditionalFormat => Some("spreadsheet.setSheetMetadata"),
            SpreadsheetCapability::DataValidation => Some("spreadsheet.setSheetMetadata"),
            SpreadsheetCapability::MergeCells => Some("spreadsheet.mergeCells"),
            SpreadsheetCapability::InsertRows => Some("spreadsheet.insertRows"),
            SpreadsheetCapability::InsertColumns => Some("spreadsheet.insertColumns"),
            SpreadsheetCapability::DeleteRows => Some("spreadsheet.deleteRows"),
            SpreadsheetCapability::DeleteColumns => Some("spreadsheet.deleteColumns"),
            SpreadsheetCapability::History => Some("spreadsheet.history"),
            SpreadsheetCapability::SparseViewport => None,
            SpreadsheetCapability::XlsxImport => None,
            SpreadsheetCapability::XlsxExport => None,
        }
    }
}

#[derive(Debug, Clone, PartialEq, Eq)]
pub struct SpreadsheetCapabilityDescriptor {
    pub id: String,
    pub command_type_id: Option<String>,
    pub requires_revision: bool,
    pub supports_idempotency: bool,
}

#[derive(Debug, Clone, PartialEq, Eq)]
pub struct SpreadsheetCapabilityCatalog {
    pub version: u16,
    pub namespace: String,
    pub capabilities: Vec<SpreadsheetCapabilityDescriptor>,
}

/// Every capability, in catalog order.
pub open spec fn capability_order() -> Seq<SpreadsheetCapability> {
    seq![
        SpreadsheetCapability::EditCell,
        SpreadsheetCapability::EditFormula,
        SpreadsheetCapability::FormatCells,
        SpreadsheetCapability::FreezePane,
        SpreadsheetCapability::Filter,
        SpreadsheetCapability::Sort,
        SpreadsheetCapability::ConditionalFormat,
        SpreadsheetCapability::DataValidation,
        SpreadsheetCapability::MergeCells,
        SpreadsheetCapability::InsertRows,
        SpreadsheetCapability::InsertColumns,
        SpreadsheetCapability::DeleteRows,
        SpreadsheetCapability::DeleteColumns,
        SpreadsheetCapability::History,
        SpreadsheetCapability::SparseViewport,
        SpreadsheetCapability::XlsxImport,
        SpreadsheetCapability::XlsxExport,
    ]
}

/// The descriptor the catalog publishes for one capability.
pub open spec fn describes(d: SpreadsheetCapabilityDescriptor, c: SpreadsheetCapability) -> bool {
    &&& d.id@ == c.spec_id()@
    &&& match c.spec_command_type_id() {
        Some(t) => d.command_type_id matches Some(s) && s@ == t@,
        None => d.command_type_id is None,
    }
    &&& d.requires_revision == c.spec_command_type_id() is Some
    &&& d.supports_idempotency == c.spec_command_type_id() is Some
}

fn describe(capability: SpreadsheetCapability) -> (res: SpreadsheetCapabilityDescriptor)
    ensures
        describes(res, capability),
{
    let command = capability.command_type_id();
    let command_type_id = match command {
        Some(t) => Some(String::from_str(t)),
        None => None,
    };
    SpreadsheetCapabilityDescriptor {
        id: String::from_str(capability.id()),
        command_type_id,
        requires_revision: command.is_some(),
        supports_idempotency: command.is_some(),
    }
}

/// The capability catalog consumed by the REST, SDK and tool adapters.
pub fn spreadsheet_capability_catalog() -> (res: SpreadsheetCapabilityCatalog)
    ensures
        res.version == SPREADSHEET_CAPABILITY_VERSION,
        res.namespace@ == SPREADSHEET_NAMESPACE@,
        res.capabilities@.len() == capability_order().len(),
        forall|i: int|
            0 <= i < capability_order().len() ==> describes(
                #[trigger] res.capabilities@[i],
                capability_order()[i],
            ),
{
    let order = vec![
        SpreadsheetCapability::EditCell,
        SpreadsheetCapability::EditFormula,
        SpreadsheetCapability::FormatCells,
        SpreadsheetCapability::FreezePane,
        SpreadsheetCapability::Filter,
        SpreadsheetCapability::Sort,
        SpreadsheetCapability::ConditionalFormat,
        SpreadsheetCapability::DataValidation,
        SpreadsheetCapability::MergeCells,
        SpreadsheetCapability::InsertRows,
        SpreadsheetCapability::InsertColumns,
        SpreadsheetCapability::DeleteRows,
        SpreadsheetCapability::DeleteColumns,
        SpreadsheetCapability::History,
        SpreadsheetCapability::SparseViewport,
        SpreadsheetCapability::XlsxImport,
        SpreadsheetCapability::XlsxExport,
    ];
    assert(order@ =~= capability_order());
    let mut capabilities: Vec<SpreadsheetCapabilityDescriptor> = Vec::new();
    let mut i: usize = 0;
    while i < order.len()
        invariant
            order@ == capability_order(),
            i <= order@.len(),
            capabilities@.len() == i,
            forall|j: int| 0 <= j < i ==> describes(#[trigger] capabilities@[j], capability_order()[j]),
        decreases order@.len() - i,
    {
        capabilities.push(describe(order[i]));
        i += 1;
    }
    SpreadsheetCapabilityCatalog {
        version: SPREADSHEET_CAPABILITY_VERSION,
        namespace: String::from_str(SPREADSHEET_NAMESPACE),
        capabilities,
    }
}

/// The length of a capability id, its first character after the
/// namespace, and its fifth (a space when it is shorter).
pub open spec fn capability_id_key(c: SpreadsheetCapability) -> (int, char, char) {
    match c {
        SpreadsheetCapability::EditCell => (20, 'e', 'C'),
        SpreadsheetCapability::EditFormula => (23, 'e', 'F'),
        SpreadsheetCapability::FormatCells => (23, 'f', 'a'),
        SpreadsheetCapability::FreezePane => (22, 'f', 'z'),
        SpreadsheetCapability::Filter => (18, 'f', 'e'),
        SpreadsheetCapability::Sort => (16, 's', ' '),
        SpreadsheetCapability::ConditionalFormat => (29, 'c', 'i'),
        SpreadsheetCapability::DataValidation => (26, 'd', 'V'),
        SpreadsheetCapability::MergeCells => (22, 'm', 'e'),
        SpreadsheetCapability::InsertRows => (22, 'i', 'r'),
        SpreadsheetCapability::InsertColumns => (25, 'i', 'r'),
        SpreadsheetCapability::DeleteRows => (22, 'd', 't'),
        SpreadsheetCapability::DeleteColumns => (25, 'd', 't'),
        SpreadsheetCapability::History => (19, 'h', 'o'),
        SpreadsheetCapability::SparseViewport => (26, 's', 's'),
        SpreadsheetCapability::XlsxImport => (22, 'x', 'I'),
        SpreadsheetCapability::XlsxExport => (22, 'x', 'E'),
    }
}

proof fn lemma_capability_id_key(c: SpreadsheetCapability)
    ensures
        c.spec_id()@.len() == capability_id_key(c).0,
        c.spec_id()@[12] == capability_id_key(c).1,
        c.spec_id()@.len() > 16 ==> c.spec_id()@[16] == capability_id_key(c).2,
        forall|i: int| 0 <= i < c.spec_id()@.len() ==> c.spec_id()@[i] != 'b',
{
    match c {
        SpreadsheetCapability::EditCell => {
            reveal_strlit("spreadsheet.editCell");
            assert(c.spec_id()@.len() == 20 && c.spec_id()@[12] == 'e' && c.spec_id()@[16] == 'C');
            assert forall|i: int| 0 <= i < c.spec_id()@.len() implies c.spec_id()@[i] != 'b' by {}
        },
        SpreadsheetCapability::EditFormula => {
            reveal_strlit("spreadsheet.editFormula");
            assert(c.spec_id()@.len() == 23 && c.spec_id()@[12] == 'e' && c.spec_id()@[16] == 'F');
            assert forall|i: int| 0 <= i < c.spec_id()@.len() implies c.spec_id()@[i] != 'b' by {}
        },
        SpreadsheetCapability::FormatCells => {
            reveal_strlit("spreadsheet.formatCells");
            assert(c.spec_id()@.len() == 23 && c.spec_id()@[12] == 'f' && c.spec_id()@[16] == 'a');
            assert forall|i: int| 0 <= i < c.spec_id()@.len() implies c.spec_id()@[i] != 'b' by {}
        },
        SpreadsheetCapability::FreezePane => {
            reveal_strlit("spreadsheet.freezePane");
            assert(c.spec_id()@.len() == 22 && c.spec_id()@[12] == 'f' && c.spec_id()@[16] == 'z');
            assert forall|i: int| 0 <= i < c.spec_id()@.len() implies c.spec_id()@[i] != 'b' by {}
        },
        SpreadsheetCapability::Filter => {
            reveal_strlit("spreadsheet.filter");
            assert(c.spec_id()@.len() == 18 && c.spec_id()@[12] == 'f' && c.spec_id()@[16] == 'e');
            assert forall|i: int| 0 <= i < c.spec_id()@.len() implies c.spec_id()@[i] != 'b' by {}
        },
        SpreadsheetCapability::Sort => {
            reveal_strlit("spreadsheet.sort");
            assert(c.spec_id()@.len() == 16 && c.spec_id()@[12] == 's');
            assert forall|i: int| 0 <= i < c.spec_id()@.len() implies c.spec_id()@[i] != 'b' by {}
        },
        SpreadsheetCapability::ConditionalFormat => {
            reveal_strlit("spreadsheet.conditionalFormat");
            assert(c.spec_id()@.len() == 29 && c.spec_id()@[12] == 'c' && c.spec_id()@[16] == 'i');
            assert forall|i: int| 0 <= i < c.spec_id()@.len() implies c.spec_id()@[i] != 'b' by {}
        },
        SpreadsheetCapability::DataValidation => {
            reveal_strlit("spreadsheet.dataValidation");
            assert(c.spec_id()@.len() == 26 && c.spec_id()@[12] == 'd' && c.spec_id()@[16] == 'V');
            assert forall|i: int| 0 <= i < c.spec_id()@.len() implies c.spec_id()@[i] != 'b' by {}
        },
        SpreadsheetCapability::MergeCells => {
            reveal_strlit("spreadsheet.mergeCells");
            assert(c.spec_id()@.len() == 22 && c.spec_id()@[12] == 'm' && c.spec_id()@[16] == 'e');
            assert forall|i: int| 0 <= i < c.spec_id()@.len() implies c.spec_id()@[i] != 'b' by {}
        },
        SpreadsheetCapability::InsertRows => {
            reveal_strlit("spreadsheet.insertRows");
            assert(c.spec_id()@.len() == 22 && c.spec_id()@[12] == 'i' && c.spec_id()@[16] == 'r');
            assert forall|i: int| 0 <= i < c.spec_id()@.len() implies c.spec_id()@[i] != 'b' by {}
        },
        SpreadsheetCapability::InsertColumns => {
            reveal_strlit("spreadsheet.insertColumns");
            assert(c.spec_id()@.len() == 25 && c.spec_id()@[12] == 'i' && c.spec_id()@[16] == 'r');
            assert forall|i: int| 0 <= i < c.spec_id()@.len() implies c.spec_id()@[i] != 'b' by {}
        },
        SpreadsheetCapability::DeleteRows => {
            reveal_strlit("spreadsheet.deleteRows");
            assert(c.spec_id()@.len() == 22 && c.spec_id()@[12] == 'd' && c.spec_id()@[16] == 't');
            assert forall|i: int| 0 <= i < c.spec_id()@.len() implies c.spec_id()@[i] != 'b' by {}
        },
        SpreadsheetCapability::DeleteColumns => {
            reveal_strlit("spreadsheet.deleteColumns");
            assert(c.spec_id()@.len() == 25 && c.spec_id()@[12] == 'd' && c.spec_id()@[16] == 't');
            assert forall|i: int| 0 <= i < c.spec_id()@.len() implies c.spec_id()@[i] != 'b' by {}
        },
        SpreadsheetCapability::History => {
            reveal_strlit("spreadsheet.history");
            assert(c.spec_id()@.len() == 19 && c.spec_id()@[12] == 'h' && c.spec_id()@[16] == 'o');
            assert forall|i: int| 0 <= i < c.spec_id()@.len() implies c.spec_id()@[i] != 'b' by {}
        },
        SpreadsheetCapability::SparseViewport => {
            reveal_strlit("spreadsheet.sparseViewport");
            assert(c.spec_id()@.len() == 26 && c.spec_id()@[12] == 's' && c.spec_id()@[16] == 's');
            assert forall|i: int| 0 <= i < c.spec_id()@.len() implies c.spec_id()@[i] != 'b' by {}
        },
        SpreadsheetCapability::XlsxImport => {
            reveal_strlit("spreadsheet.xlsxImport");
            assert(c.spec_id()@.len() == 22 && c.spec_id()@[12] == 'x' && c.spec_id()@[16] == 'I');
            assert forall|i: int| 0 <= i < c.spec_id()@.len() implies c.spec_id()@[i] != 'b' by {}
        },
        SpreadsheetCapability::XlsxExport => {
            reveal_strlit("spreadsheet.xlsxExport");
            assert(c.spec_id()@.len() == 22 && c.spec_id()@[12] == 'x' && c.spec_id()@[16] == 'E');
            assert forall|i: int| 0 <= i < c.spec_id()@.len() implies c.spec_id()@[i] != 'b' by {}
        },
    }
}

/// Capability ids name the spreadsheet namespace and no document block
/// (no id holds the letter `b`, so none holds `block`), and no two
/// capabilities share an id.
pub proof fn law_capability_ids_are_distinct(c1: SpreadsheetCapability, c2: SpreadsheetCapability)
    ensures
        c1 != c2 ==> c1.spec_id()@ != c2.spec_id()@,
        forall|i: int| 0 <= i <= c1.spec_id()@.len() - 5 ==> #[trigger] c1.spec_id()@.subrange(i, i + 5) != "block"@,
{
    lemma_capability_id_key(c1);
    lemma_capability_id_key(c2);
    if c1 != c2 && c1.spec_id()@ == c2.spec_id()@ {
        assert(capability_id_key(c1) == capability_id_key(c2));
    }
    reveal_strlit("block");
    assert forall|i: int| 0 <= i <= c1.spec_id()@.len() - 5 implies #[trigger] c1.spec_id()@.subrange(i, i + 5) != "block"@ by {
        assert(c1.spec_id()@.subrange(i, i + 5)[0] == c1.spec_id()@[i]);
        assert("block"@[0] == 'b');
    }
}

/// Every capability id lives in the spreadsheet namespace: it starts with
/// `spreadsheet.`.
pub proof fn law_capability_ids_are_namespaced(c: SpreadsheetCapability)
    ensures
        c.spec_id()@.len() > 11,
        c.spec_id()@.subrange(0, 11) == SPREADSHEET_NAMESPACE@,
        c.spec_id()@[11] == '.',
{
    reveal_strlit("spreadsheet");
    match c {
        SpreadsheetCapability::EditCell => {
            reveal_strlit("spreadsheet.editCell");
            assert(c.spec_id()@.subrange(0, 11) =~= "spreadsheet"@);
        },
        SpreadsheetCapability::EditFormula => {
            reveal_strlit("spreadsheet.editFormula");
            assert(c.spec_id()@.subrange(0, 11) =~= "spreadsheet"@);
        },
        SpreadsheetCapability::FormatCells => {
            reveal_strlit("spreadsheet.formatCells");
            assert(c.spec_id()@.subrange(0, 11) =~= "spreadsheet"@);
        },
        SpreadsheetCapability::FreezePane => {
            reveal_strlit("spreadsheet.freezePane");
            assert(c.spec_id()@.subrange(0, 11) =~= "spreadsheet"@);
        },
        SpreadsheetCapability::Filter => {
            reveal_strlit("spreadsheet.filter");
            assert(c.spec_id()@.subrange(0, 11) =~= "spreadsheet"@);
        },
        SpreadsheetCapability::Sort => {
            reveal_strlit("spreadsheet.sort");
            assert(c.spec_id()@.subrange(0, 11) =~= "spreadsheet"@);
        },
        SpreadsheetCapability::ConditionalFormat => {
            reveal_strlit("spreadsheet.conditionalFormat");
            assert(c.spec_id()@.subrange(0, 11) =~= "spreadsheet"@);
        },
        SpreadsheetCapability::DataValidation => {
            reveal_strlit("spreadsheet.dataValidation");
            assert(c.spec_id()@.subrange(0, 11) =~= "spreadsheet"@);
        },
        SpreadsheetCapability::MergeCells => {
            reveal_strlit("spreadsheet.mergeCells");
            assert(c.spec_id()@.subrange(0, 11) =~= "spreadsheet"@);
        },
        SpreadsheetCapability::InsertRows => {
            reveal_strlit("spreadsheet.insertRows");
            assert(c.spec_id()@.subrange(0, 11) =~= "spreadsheet"@);
        },
        SpreadsheetCapability::InsertColumns => {
            reveal_strlit("spreadsheet.insertColumns");
            assert(c.spec_id()@.subrange(0, 11) =~= "spreadsheet"@);
        },
        SpreadsheetCapability::DeleteRows => {
            reveal_strlit("spreadsheet.deleteRows");
            assert(c.spec_id()@.subrange(0, 11) =~= "spreadsheet"@);
        },
        SpreadsheetCapability::DeleteColumns => {
            reveal_strlit("spreadsheet.deleteColumns");
            assert(c.spec_id()@.subrange(0, 11) =~= "spreadsheet"@);
        },
        SpreadsheetCapability::History => {
            reveal_strlit("spreadsheet.history");
            assert(c.spec_id()@.subrange(0, 11) =~= "spreadsheet"@);
        },
        SpreadsheetCapability::SparseViewport => {
            reveal_strlit("spreadsheet.sparseViewport");
            assert(c.spec_id()@.subrange(0, 11) =~= "spreadsheet"@);
        },
        SpreadsheetCapability::XlsxImport => {
            reveal_strlit("spreadsheet.xlsxImport");
            assert(c.spec_id()@.subrange(0, 11) =~= "spreadsheet"@);
        },
        SpreadsheetCapability::XlsxExport => {
            reveal_strlit("spreadsheet.xlsxExport");
            assert(c.spec_id()@.subrange(0, 11) =~= "spreadsheet"@);
        },
    }
}

/// Wire identity and scope of one engine command.
#[derive(Debug, Clone, Copy, PartialEq, Eq)]
pub struct SpreadsheetCommandDescriptor {
    pub type_id: &'static str,
    pub scope: &'static str,
}

/// Every spreadsheet command, with the entity scope it edits, in registry order.
pub open spec fn spreadsheet_command_table() -> Seq<SpreadsheetCommandDescriptor> {
    seq![
        SpreadsheetCommandDescriptor { type_id: "spreadsheet.setRowLayout", scope: "spreadsheet.sheet" },
        SpreadsheetCommandDescriptor { type_id: "spreadsheet.createSheet", scope: "spreadsheet.sheet" },
        SpreadsheetCommandDescriptor { type_id: "spreadsheet.renameSheet", scope: "spreadsheet.sheet" },
        SpreadsheetCommandDescriptor { type_id: "spreadsheet.deleteSheet", scope: "spreadsheet.sheet" },
        SpreadsheetCommandDescriptor { type_id: "spreadsheet.setCell", scope: "spreadsheet.cell" },
        SpreadsheetCommandDescriptor { type_id: "spreadsheet.setCellStyle", scope: "spreadsheet.cell" },
        SpreadsheetCommandDescriptor { type_id: "spreadsheet.setSheetMetadata", scope: "spreadsheet.sheet" },
        SpreadsheetCommandDescriptor { type_id: "spreadsheet.clearCell", scope: "spreadsheet.cell" },
        SpreadsheetCommandDescriptor { type_id: "spreadsheet.insertRows", scope: "spreadsheet.sheet" },
        SpreadsheetCommandDescriptor { type_id: "spreadsheet.deleteRows", scope: "spreadsheet.sheet" },
        SpreadsheetCommandDescriptor { type_id: "spreadsheet.insertColumns", scope: "spreadsheet.sheet" },
        SpreadsheetCommandDescriptor { type_id: "spreadsheet.deleteColumns", scope: "spreadsheet.sheet" },
        SpreadsheetCommandDescriptor { type_id: "spreadsheet.mergeCells", scope: "spreadsheet.sheet" },
        SpreadsheetCommandDescriptor { type_id: "spreadsheet.unmergeCells", scope: "spreadsheet.sheet" },
        SpreadsheetCommandDescriptor { type_id: "spreadsheet.sortRange", scope: "spreadsheet.sheet" },
        SpreadsheetCommandDescriptor { type_id: "spreadsheet.formatRange", scope: "spreadsheet.cell" },
        SpreadsheetCommandDescriptor { type_id: "spreadsheet.clearRange", scope: "spreadsheet.cell" },
        SpreadsheetCommandDescriptor { type_id: "spreadsheet.replaceRange", scope: "spreadsheet.cell" },
        SpreadsheetCommandDescriptor { type_id: "spreadsheet.pasteRange", scope: "spreadsheet.cell" },
        SpreadsheetCommandDescriptor { type_id: "spreadsheet.fillRange", scope: "spreadsheet.cell" },
        SpreadsheetCommandDescriptor { type_id: "spreadsheet.setFreezePane", scope: "spreadsheet.sheet" },
        SpreadsheetCommandDescriptor { type_id: "spreadsheet.setAutoFilter", scope: "spreadsheet.sheet" },
        SpreadsheetCommandDescriptor { type_id: "spreadsheet.upsertFilterColumn", scope: "spreadsheet.sheet" },
        SpreadsheetCommandDescriptor { type_id: "spreadsheet.clearFilter", scope: "spreadsheet.sheet" },
        SpreadsheetCommandDescriptor { type_id: "spreadsheet.setCalculationMode", scope: "spreadsheet.workbook" },
        SpreadsheetCommandDescriptor { type_id: "spreadsheet.setRowDimensions", scope: "spreadsheet.sheet" },
        SpreadsheetCommandDescriptor { type_id: "spreadsheet.setColumnDimensions", scope: "spreadsheet.sheet" },
        SpreadsheetCommandDescriptor { type_id: "spreadsheet.upsertConditionalFormat", scope: "spreadsheet.sheet" },
        SpreadsheetCommandDescriptor { type_id: "spreadsheet.deleteConditionalFormat", scope: "spreadsheet.sheet" },
        SpreadsheetCommandDescriptor { type_id: "spreadsheet.upsertDataValidation", scope: "spreadsheet.sheet" },
        SpreadsheetCommandDescriptor { type_id: "spreadsheet.deleteDataValidation", scope: "spreadsheet.sheet" },
    ]
}

/// The spreadsheet engine's command registry.
pub fn spreadsheet_command_registry() -> (res: Vec<SpreadsheetCommandDescriptor>)
    ensures
        res@ == spreadsheet_command_table(),
{
    let v = vec![
        SpreadsheetCommandDescriptor { type_id: "spreadsheet.setRowLayout", scope: "spreadsheet.sheet" },
        SpreadsheetCommandDescriptor { type_id: "spreadsheet.createSheet", scope: "spreadsheet.sheet" },
        SpreadsheetCommandDescriptor { type_id: "spreadsheet.renameSheet", scope: "spreadsheet.sheet" },
        SpreadsheetCommandDescriptor { type_id: "spreadsheet.deleteSheet", scope: "spreadsheet.sheet" },
        SpreadsheetCommandDescriptor { type_id: "spreadsheet.setCell", scope: "spreadsheet.cell" },
        SpreadsheetCommandDescriptor { type_id: "spreadsheet.setCellStyle", scope: "spreadsheet.cell" },
        SpreadsheetCommandDescriptor { type_id: "spreadsheet.setSheetMetadata", scope: "spreadsheet.sheet" },
        SpreadsheetCommandDescriptor { type_id: "spreadsheet.clearCell", scope: "spreadsheet.cell" },
        SpreadsheetCommandDescriptor { type_id: "spreadsheet.insertRows", scope: "spreadsheet.sheet" },
        SpreadsheetCommandDescriptor { type_id: "spreadsheet.deleteRows", scope: "spreadsheet.sheet" },
        SpreadsheetCommandDescriptor { type_id: "spreadsheet.insertColumns", scope: "spreadsheet.sheet" },
        SpreadsheetCommandDescriptor { type_id: "spreadsheet.deleteColumns", scope: "spreadsheet.sheet" },
        SpreadsheetCommandDescriptor { type_id: "spreadsheet.mergeCells", scope: "spreadsheet.sheet" },
        SpreadsheetCommandDescriptor { type_id: "spreadsheet.unmergeCells", scope: "spreadsheet.sheet" },
        SpreadsheetCommandDescriptor { type_id: "spreadsheet.sortRange", scope: "spreadsheet.sheet" },
        SpreadsheetCommandDescriptor { type_id: "spreadsheet.formatRange", scope: "spreadsheet.cell" },
        SpreadsheetCommandDescriptor { type_id: "spreadsheet.clearRange", scope: "spreadsheet.cell" },
        SpreadsheetCommandDescriptor { type_id: "spreadsheet.replaceRange", scope: "spreadsheet.cell" },
        SpreadsheetCommandDescriptor { type_id: "spreadsheet.pasteRange", scope: "spreadsheet.cell" },
        SpreadsheetCommandDescriptor { type_id: "spreadsheet.fillRange", scope: "spreadsheet.cell" },
        SpreadsheetCommandDescriptor { type_id: "spreadsheet.setFreezePane", scope: "spreadsheet.sheet" },
        SpreadsheetCommandDescriptor { type_id: "spreadsheet.setAutoFilter", scope: "spreadsheet.sheet" },
        SpreadsheetCommandDescriptor { type_id: "spreadsheet.upsertFilterColumn", scope: "spreadsheet.sheet" },
        SpreadsheetCommandDescriptor { type_id: "spreadsheet.clearFilter", scope: "spreadsheet.sheet" },
        SpreadsheetCommandDescriptor { type_id: "spreadsheet.setCalculationMode", scope: "spreadsheet.workbook" },
        SpreadsheetCommandDescriptor { type_id: "spreadsheet.setRowDimensions", scope: "spreadsheet.sheet" },
        SpreadsheetCommandDescriptor { type_id: "spreadsheet.setColumnDimensions", scope: "spreadsheet.sheet" },
        SpreadsheetCommandDescriptor { type_id: "spreadsheet.upsertConditionalFormat", scope: "spreadsheet.sheet" },
        SpreadsheetCommandDescriptor { type_id: "spreadsheet.deleteConditionalFormat", scope: "spreadsheet.sheet" },
        SpreadsheetCommandDescriptor { type_id: "spreadsheet.upsertDataValidation", scope: "spreadsheet.sheet" },
        SpreadsheetCommandDescriptor { type_id: "spreadsheet.deleteDataValidation", scope: "spreadsheet.sheet" },
    ];
    assert(v@ =~= spreadsheet_command_table());
    v
}

/// Wire identity and scope of one whiteboard command.
#[derive(Debug, Clone, Copy, PartialEq, Eq)]
pub struct WhiteboardCommandDescriptor {
    pub type_id: &'static str,
    pub scope: &'static str,
}

pub open spec fn whiteboard_command_table() -> Seq<WhiteboardCommandDescriptor> {
    seq![
        WhiteboardCommandDescriptor { type_id: "whiteboard.addElement", scope: "whiteboard.element" },
        WhiteboardCommandDescriptor { type_id: "whiteboard.updateElement", scope: "whiteboard.element" },
        WhiteboardCommandDescriptor { type_id: "whiteboard.deleteElement", scope: "whiteboard.element" },
        WhiteboardCommandDescriptor { type_id: "whiteboard.setCamera", scope: "whiteboard.camera" },
        WhiteboardCommandDescriptor { type_id: "whiteboard.panCamera", scope: "whiteboard.camera" },
        WhiteboardCommandDescriptor { type_id: "whiteboard.zoomCamera", scope: "whiteboard.camera" },
    ]
}

/// The whiteboard engine's command registry.
pub fn whiteboard_command_registry() -> (res: Vec<WhiteboardCommandDescriptor>)
    ensures
        res@ == whiteboard_command_table(),
{
    let v = vec![
        WhiteboardCommandDescriptor { type_id: "whiteboard.addElement", scope: "whiteboard.element" },
        WhiteboardCommandDescriptor { type_id: "whiteboard.updateElement", scope: "whiteboard.element" },
        WhiteboardCommandDescriptor { type_id: "whiteboard.deleteElement", scope: "whiteboard.element" },
        WhiteboardCommandDescriptor { type_id: "whiteboard.setCamera", scope: "whiteboard.camera" },
        WhiteboardCommandDescriptor { type_id: "whiteboard.panCamera", scope: "whiteboard.camera" },
        WhiteboardCommandDescriptor { type_id: "whiteboard.zoomCamera", scope: "whiteboard.camera" },
    ];
    assert(v@ =~= whiteboard_command_table());
    v
}

/// The whiteboard registry names each command once, and every entry lives
/// in the whiteboard namespace.
pub proof fn law_whiteboard_registry_unique_and_namespaced(i: int, j: int)
    requires
        0 <= i < whiteboard_command_table().len(),
        0 <= j < whiteboard_command_table().len(),
    ensures
        i != j ==> whiteboard_command_table()[i].type_id@ != whiteboard_command_table()[j].type_id@,
        whiteboard_command_table()[i].type_id@.subrange(0, 11) == "whiteboard."@,
        whiteboard_command_table()[i].scope@.subrange(0, 10) == "whiteboard"@,
{
    reveal_strlit("whiteboard.");
    reveal_strlit("whiteboard");
    reveal_strlit("whiteboard.addElement");
    reveal_strlit("whiteboard.updateElement");
    reveal_strlit("whiteboard.deleteElement");
    reveal_strlit("whiteboard.setCamera");
    reveal_strlit("whiteboard.panCamera");
    reveal_strlit("whiteboard.zoomCamera");
    reveal_strlit("whiteboard.element");
    reveal_strlit("whiteboard.camera");
    let t = whiteboard_command_table();
    assert(t[i].type_id@.subrange(0, 11) =~= "whiteboard."@);
    assert(t[i].scope@.subrange(0, 10) =~= "whiteboard"@);
    if i == 0 && j == 1 {
            assert(t[0].type_id@.len() != t[1].type_id@.len());
    }
    if i == 0 && j == 2 {
            assert(t[0].type_id@.len() != t[2].type_id@.len());
    }
    if i == 0 && j == 3 {
            assert(t[0].type_id@.len() != t[3].type_id@.len());
    }
    if i == 0 && j == 4 {
            assert(t[0].type_id@.len() != t[4].type_id@.len());
    }
    if i == 0 && j == 5 {
            assert(t[0].type_id@[11] != t[5].type_id@[11]);
    }
    if i == 1 && j == 0 {
            assert(t[1].type_id@.len() != t[0].type_id@.len());
    }
    if i == 1 && j == 2 {
            assert(t[1].type_id@[11] != t[2].type_id@[11]);
    }
    if i == 1 && j == 3 {
            assert(t[1].type_id@.len() != t[3].type_id@.len());
    }
    if i == 1 && j == 4 {
            assert(t[1].type_id@.len() != t[4].type_id@.len());
    }
    if i == 1 && j == 5 {
            assert(t[1].type_id@.len() != t[5].type_id@.len());
    }
    if i == 2 && j == 0 {
            assert(t[2].type_id@.len() != t[0].type_id@.len());
    }
    if i == 2 && j == 1 {
            assert(t[2].type_id@[11] != t[1].type_id@[11]);
    }
    if i == 2 && j == 3 {
            assert(t[2].type_id@.len() != t[3].type_id@.len());
    }
    if i == 2 && j == 4 {
            assert(t[2].type_id@.len() != t[4].type_id@.len());
    }
    if i == 2 && j == 5 {
            assert(t[2].type_id@.len() != t[5].type_id@.len());
    }
    if i == 3 && j == 0 {
            assert(t[3].type_id@.len() != t[0].type_id@.len());
    }
    if i == 3 && j == 1 {
            assert(t[3].type_id@.len() != t[1].type_id@.len());
    }
    if i == 3 && j == 2 {
            assert(t[3].type_id@.len() != t[2].type_id@.len());
    }
    if i == 3 && j == 4 {
            assert(t[3].type_id@[11] != t[4].type_id@[11]);
    }
    if i == 3 && j == 5 {
            assert(t[3].type_id@.len() != t[5].type_id@.len());
    }
    if i == 4 && j == 0 {
            assert(t[4].type_id@.len() != t[0].type_id@.len());
    }
    if i == 4 && j == 1 {
            assert(t[4].type_id@.len() != t[1].type_id@.len());
    }
    if i == 4 && j == 2 {
            assert(t[4].type_id@.len() != t[2].type_id@.len());
    }
    if i == 4 && j == 3 {
            assert(t[4].type_id@[11] != t[3].type_id@[11]);
    }
    if i == 4 && j == 5 {
            assert(t[4].type_id@.len() != t[5].type_id@.len());
    }
    if i == 5 && j == 0 {
            assert(t[5].type_id@[11] != t[0].type_id@[11]);
    }
    if i == 5 && j == 1 {
            assert(t[5].type_id@.len() != t[1].type_id@.len());
    }
    if i == 5 && j == 2 {
            assert(t[5].type_id@.len() != t[2].type_id@.len());
    }
    if i == 5 && j == 3 {
            assert(t[5].type_id@.len() != t[3].type_id@.len());
    }
    if i == 5 && j == 4 {
            assert(t[5].type_id@.len() != t[4].type_id@.len());
    }
}

} // verus!
