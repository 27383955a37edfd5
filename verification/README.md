# larksson

A small homoiconic language whose only runtime values are maps and the empty
value, with its parser, interpreter and printer verified with Verus.

Layout of `src/`:

- `order.rs` — the model of values (`Val`), their structural order, and the
  sorted entry lists that maps are kept as.
- `value.rs` — the executable values `V` and maps `L`, their views, comparison
  and equality.
- `map.rs` — the map operations (`insert`, `get`, `remove`, `entry`, `retain`, ...).
- `encode.rs` — unary numbers, fixed-width numbers, and the list layouts.
- `text.rs` — strings as values and back.
- `parse.rs` — the source syntax, read into values under either number encoding;
  a statement side in parentheses is dereferenced once more when it runs.
- `interp.rs`, `ops.rs` — paths, assignment, triggers, statement execution and
  the `add` and `run` operations.
- `render.rs` — printing values.
- `revision.rs`, `revision/` — a second interpreter built on list kinds (marked, system and
  linked lists), with numbers as system lists of their bits.
- `laws.rs` — properties across operations: reading back what was written,
  paths and strings reading back, number round trips, printing numbers, bare
  words as strings, unary numbers, system lists, marked lists and the second
  interpreter's strings read back, programs running statement by statement,
  assignment as dereference then write, `run` returning zero, stripping empty
  values, and giving operations their triggers.

`app/main.rs` reads a source file (or standard input), runs it against a root
holding an empty trigger for each operation, and prints the final root.
