# loop_puzzle

A solver and generator for loop puzzles on a rectangular grid of numbered cells,
written in Verus: every function of the library carries a contract that Verus proves.

* `src/` is the library. The board (`stage::SolvingStage`) is one grid of points,
  lines and cell numbers; `edit`, `deduce`, `point`, `group`, `firstcheck` and
  `fixpoint` hold the deductions (`completion` shows that the number patterns rule
  out no finished board that meets the numbers), `loopcheck` the completion test
  (with `cycle`, which shows that a walk along closed loops comes back to its
  start), `solve` and `rough` the searches, `generate` and `blocks` the puzzle
  generators, `text` the textual forms of a board, and `laws` the properties that
  relate several functions.
  `random` holds the trusted items: the declaration of `rand`'s `ThreadRng` and the
  three functions that call into `rand` (`thread_rng`, `gen_range`, `gen::<u64>`), the
  only code whose contract is trusted.
* `tests/` runs the library on concrete boards.
* `app/` exports the generators to JavaScript through `wasm-bindgen` and prints boards.
