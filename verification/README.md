# puzrs

Verified building blocks of puzzle solvers.

- `src/kakuro`: the Kakuro run dictionary. For every run (length, sum, set of
  available values) the exact dictionary gives the values that every filling of the
  run uses and the values that some filling uses; the limited dictionary gives cheaper
  bounds. `laws.rs` proves that the limited dictionary never contradicts the exact one.
- `src/yajilin/field.rs`: the decisions of the Yajilin field: counting the blocks a clue
  sees, what deciding a cell entails, and what a point of the loop forces.
  `spacing.rs` proves that the block counts are the largest numbers of blocks that fit
  apart from each other, and that every block a clue decides is in every way of
  satisfying it.
- `src/tapa/generator.rs`: the decisions of the Tapa problem generator: which cells
  and clues to try, and how the clue count and the symmetric clue marks change; an
  accepted change keeps the count equal to the number of marks, the marks symmetric and
  every clue marked.
- `src/grid.rs`: a rectangular grid.

`app/` holds the Yajilin field and the Tapa generator loop, which drive the loop engine
of `grid_loop`, the Tapa solver, and a random source (with floating-point annealing).
