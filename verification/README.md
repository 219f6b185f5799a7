# connect_four

The engine behind a Connect Four game played in a window, as a library whose
behaviour is stated in contracts and proved with Verus.

- `src/lines.rs` — the lines of cells through a cell (its row, its column and its
  two diagonals, cut to a reach of three) and the score of a line: the best window
  of four values for a player.
- `src/grid.rs` — the boards, held in `array2d::Array2D`, reached through a few
  trusted calls into that crate, and what the engine reads off a board.
- `src/engine.rs` — the engine on six rows and seven columns: `check`, the lines
  through a cell, the position a search walks (`ConnectFour`: apply, revert,
  actions, evaluation) and `evaluate_action`, which also finds the winning cells.
  Among its proved laws: a move taken back restores the position, every four in a
  row through the last piece is seen, scores stay within ±127.
- `src/calc.rs` — the first engine, on seven rows and eight columns with
  whole-number scores.
- `src/playfield.rs` — the game the user plays: cells, the game's state, playing
  a column, starting afresh, and the notices that tell the window what changed.
- `app/` — the program around the library: the minimax search (floating point
  scores, a clock and random numbers), the window events and the commands the
  window calls.
