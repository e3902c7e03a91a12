# crossword_grid

A verified library for crossword grids: parsing a grid from plain text,
checking the 180-degree rotational symmetry rule, numbering across/down
entries the way a printed crossword does, writing ipuz and Across Lite
`.puz` files, and filling a grid from a word list by backtracking.

Layout:

- `src/grid.rs` — squares, the grid and its model, parsing, text form.
- `src/slots.rs` — runs of white squares and entry numbering.
- `src/ipuz.rs`, `src/puz.rs` — export formats (with the .puz checksum).
- `src/words.rs` — the word list, grouped by length.
- `src/fill.rs` — the backtracking fill and what a fill is.
- `src/text.rs` — character and string helpers.
- `app/lib.rs` — a generic word-list constructor over any iterator of strings.
