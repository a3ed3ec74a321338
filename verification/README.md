# oo_spreadsheet

The verified core of a spreadsheet and whiteboard runtime, written in Verus.
Every function in `src/` carries a `requires`/`ensures` contract that Verus
proves; the laws the library promises stand as public proof functions.

## Layout

- `src/` — the verified library.
  - `text`, `address`, `addr_set`, `addr_map`: characters, cell addresses and
    their order, and sorted sets and maps of addresses.
  - `a1`, `sheet_name`, `refs`: A1 notation, sheet-name normalisation and the
    extraction of the cells a formula reads.
  - `dependency`, `topology`, `scc`, `cyclic`: the formula dependency index
    (built from a workbook snapshot, updated incrementally), the
    recalculation closure with its evaluation order, the parts of the graph
    that hold a cycle, and the theorem that cells have an evaluation order
    exactly when none lies on a cycle.
  - `remap`, `grid`, `viewport`, `formatting`, `editing`: structural-edit
    remapping, viewports and ranges, the sparse projection of a window, and
    the plain options of formatting, clearing and pasting.
  - `rewrite`, `structural`: formula references that follow a row or column
    insert or delete (a swallowed one becomes `#REF!`), and a sheet after
    such an edit: cells, merged regions, frozen band, declared size and
    formulas.
  - `paste`, `fill`: what a paste leaves in its target range in each mode,
    with copied formulas moved by their distance, and the clipboard cells of
    a fill that repeats a source range over a destination.
  - `evaluation`, `parser`, `calculation`: the formula evaluator's lexer,
    its grammar and error values, and its workbook side (sheet names,
    reference resolution, cell lookup). Number literals keep their text;
    the floating-point arithmetic is not part of the library.
  - `dates`: Gregorian day numbers.
  - `sheet_edits`: the checks the engine makes before an edit (sheet and
    cell lookup, range, paste target and clipboard validation).
  - `cells`, `mutation`, `commands`, `engine`: cell contents; reversible
    mutations with their inverses, how they apply to a workbook and the law
    that an inverse restores it; the sheet, cell, pane, dimension,
    range-clearing, merge, metadata, row and column, paste and fill
    commands; and the engine that runs command batches under a revision
    clock with rollback, undo and redo.
  - `invalidation`: the invalidation summary of a workbook change: touched
    sheets, written ranges, and written cells with the formula cells that
    read them, as the dependency index of the changed workbook records them.
  - `catalog`: the function, capability and command catalogs.
  - `xlsx`: the text-level rules of the XLSX adapter (cell references, shared
    formula expansion, XML escaping, part names, loss reports, package XML).
  - `sheet_xml`: the workbook and worksheet parts written from the workbook
    model.
  - `whiteboard`: selection, snapping and query vocabulary, and how a box
    selection combines with the current one.
  - `scene`: the whiteboard scene graph engine: element and camera commands
    under a revision clock, deletion of whole subtrees with cycle detection,
    batches that take effect whole or not at all, and the invalidation each
    batch reports.
- `tests/` — tests of the library, run against the compiled crate.
- `app/` — ordinary Rust around the library: the serde wire forms of its plain
  types, the texts of its errors, the float check of number literals between
  lexing and parsing, the whiteboard camera's pan and zoom arithmetic, and the
  case-insensitive replace routine.
