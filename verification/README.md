# rudra

A structure editor's document core, verified with Verus. A document has
three regions: Rom, a read-only palette of defaults; Ram, untyped scratch
space; and Rim, the canvas, typed by a schema of structs, variants and
fields. Cells are symbols, struct instances and rectangular grids of cells.

## Layout

- `src/document/`: the document model with governance, selection,
  validated copies, breadth operations, undo history and the integrity
  check. `laws.rs` proves what every operation keeps: integrity, a
  constant Rom, the selection's shape.
- `src/document2.rs`: a simpler, unvalidated document model; its laws keep
  every grid rectangular.
- `src/document3/`: the document model the editor uses, with `Field` cells
  in struct grids, trial-and-validate copies and moves, and the proof that
  every unchecked edit keeps a valid document valid.
- `src/custom.rs`: a sample schema and its printing rules.
- `src/serialization.rs`: printing a document as text with per-variant
  printing rules.
- `src/editor.rs`: the editor's decisions: what a click, a toolbar button
  or typing does (the focus follows the focused cell through breadth
  actions), what each resulting command does to the document, and what the
  view shows of each cell.
- `app/`: the program, saving and loading with bincode, and writing the
  text export to a file.
- `tests/`: tests of the library on concrete values.
