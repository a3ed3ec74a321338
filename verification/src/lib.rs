//! Verified core of a spreadsheet workbook engine and a whiteboard scene
//! engine: A1 addressing, formula reference extraction, the formula
//! dependency index, row and column edits with the formula references that
//! follow them, paste and fill, reversible workbook
//! mutations with the command engine, its undo and redo and the invalidation
//! summary each change reports, the scene graph engine, Gregorian day
//! numbers, capability catalogs, the XLSX text helpers and the workbook and
//! worksheet parts of an export.

pub mod grid;
pub mod cells;
pub mod text;
pub mod a1;
pub mod remap;
pub mod rewrite;
pub mod structural;
pub mod paste;
pub mod fill;
pub mod catalog;
pub mod address;
pub mod addr_set;
pub mod sheet_name;
pub mod refs;
pub mod addr_map;
pub mod dependency;
pub mod topology;
pub mod scc;
pub mod xlsx;
pub mod dates;
pub mod formatting;
pub mod editing;
pub mod whiteboard;
pub mod evaluation;
pub mod parser;
pub mod calculation;
pub mod cyclic;
pub mod viewport;
pub mod sheet_edits;
pub mod mutation;
pub mod engine;
pub mod commands;
pub mod scene;
pub mod invalidation;
pub mod sheet_xml;
