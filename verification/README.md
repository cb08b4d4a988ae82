# jigsaw

Verified building blocks of Jigsaw, a visual composing tool for change ringing, written in Verus.

## Layout

- `src/bellcore/`: bells, stages, rows (a group under multiplication), place notation, blocks of
  rows, methods and calls, with the group laws in `laws.rs`.
- `src/projcore/`: generic permutations, rows and blocks of permutations.
- `src/proj/`: the editor's composition model: the specification (`spec.rs`), everything
  derived from it for display (`derived.rs`, `derived_state.rs`, `falseness.rs`, `links.rs`),
  and the editor state machine with undo history (`comp.rs`).
- `src/compspec.rs`: compositions as chunks of methods built from place notation by
  `bellframe`: editing (soloing, deleting and splitting fragments), expansion into the rows of
  every part, method row counts, statistics and music counting.
- `src/save_load.rs`: interning of rows, strings, fragments and methods for saving the undo
  history.
- `src/history.rs`, `src/order.rs`, `src/count.rs`, `src/group.rs`, `src/text.rs`,
  `src/sorting.rs`: generic supporting definitions and lemmas.
- `tests/`: executable tests of the library.
- `app/`: the unverified shell around the library: JSON (de)serialisation with serde and the
  editor's on-screen positions and view state.
