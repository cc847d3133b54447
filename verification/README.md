# spreadsheet

A small spreadsheet: cells hold texts, numbers, booleans or expressions
(`=A1 + sum(B1:B4)`), and every change recomputes the cells that depend on
it, in dependency order; cells on a cycle of references show
`!CYCLIC REFERENCE!`.

The library in `src/` is verified with Verus:

- `tokenizer`, `ast_creator`: the expression language, from characters to
  tokens to trees, each stated against a specification of the grammar.
- `ast_resolver`, `builtin_functions`: evaluation of trees against the
  values of the cells they name, and the built-in functions.
- `dependancy_graph`: which cells may be computed from which; the
  dependants of a cell, and a topological split of the graph.
- `parser`, `spreadsheet`, `sheet_file`, `editor`: reading a cell's text,
  the sheet and its operations, the text form of a sheet, and what
  editing a cell does. After any sequence of additions, changes and
  removals, every cell shows what its text comes to with the values the
  sheet shows, except those on a cycle of references or after one that
  are still pending, which show the cycle error.
- `cell_names`, `text`, `common_types`: names of cells and columns,
  character classes, and the shared types.

Numbers are kept abstract: the sheet is generic over a `Numeric` type that
supplies arithmetic and display. `app/` holds the graphical program
(macroquad), which uses `f64` numbers and draws the grid.
