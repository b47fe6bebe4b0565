# table_layout

Builds tables from styled documents and sizes their columns.

A table is laid out as a grid. The grid sizes the columns of plain tables itself. Where a
cell has a percentage or spans columns, this library sizes them. Percentage columns get
their part of the table's width. No column gets less than its content needs, up to
rounding where percentage columns have to shrink. What is left over goes to the other
columns, which first grow towards the width that their content has without wrapping. The
content of spanning cells does not count where the table's width is given. While a table
is measured, or shrinks to fit, it widens the columns that a cell spans in equal shares.

A cell stands at the first column of its row at which it has room, beside the cells that
span into the row from above. That is where the grid places it.

- `src/` is the library. Its functions are verified with Verus against their
  contracts. Widths are binary32 numbers that are carried as their bits, and the
  arithmetic on them is proved to round correctly, so that it gives what floating-point
  hardware gives.
- `tests/` runs the library, and compares its arithmetic with the machine's.
- `app/` connects the library to a document engine: it reads stylo's computed styles and
  runs taffy's grid layout.

Three functions are trusted: `spans::parse`, which reads a number from a text with the
standard library, and `tree::child_id` and `tree::child_index`, which convert between
indices and taffy's node identifiers. What taffy finds out about a grid is kept as it is.
