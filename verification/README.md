# table_grid

Column and row boundary detection, cell assignment and header recovery for
tables that are found heuristically in positioned text, such as the text of a
page.

- `src/` is the library. Every function has a contract that Verus proves.
  - `rounding`, `single`, `precision`: single precision numbers by their bit
    patterns, with proofs that each operation rounds the exact result to the
    nearest number, and of how far sums and averages are from the exact ones.
  - `text`, `order`, `cluster`: trimming and recognition of figures, sorting,
    and the grouping of sorted positions.
  - `columns`, `rows`, `lookup`: where columns and rows are, and which of them
    a position belongs to. `column_order` proves that columns come from left
    to right, `item_order` that the order of the items does not matter.
  - `header`: a header row that is set in a larger font than its table.
  - `body`, `lines`, `wrapped`: column headers that wrap onto several lines
    above a table.
  - `guarantees`: what holds of the tables with recovered headers.
- `tests/` runs the library, and compares its arithmetic with that of the
  machine.
- `app/` offers the same functions on `f32`.
