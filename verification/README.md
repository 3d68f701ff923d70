# mappy_merges

The metaroom merge graph of the mappy map tracker, verified with Verus.

When the tracker sees a new room it either keeps it as a metaroom of its own or
merges it with metarooms it matches; a merge creates a new metaroom that registers
the new room and every room of the merged metarooms at their relative offsets.

- `src/metaroom.rs` — `MetaroomID`, `Metaroom` and their mathematical view.
- `src/model.rs` — the specification: well-formedness of the graph, what a merge
  produces, and the lemmas the proofs use.
- `src/merges.rs` — `Merges` and its operations, with their contracts.
- `src/laws.rs` — properties that relate the operations (what stays listed after a
  merge).
- `src/input.rs` — choosing the digit key among those pressed.
- `app/` — the parts around the library that need the window, the keyboard or
  floating point (macroquad).
- `tests/` — concrete scenarios.
