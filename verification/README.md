# sudoku

A sudoku solver whose solving rules are written and proved with Verus.

A board is 81 cells in row-major order. A cell is either definite (`Def`, a
digit from 1 to 9) or holds the set of digits still possible there (`Pos`).
Each solving step turns a board into a new board plus the list of changes it
made, or reports a contradiction (`SudokuError`).

## Layout

- `src/utils.rs`: cells, values, references, changes, the board, and the
  model they are specified over (`apply_changes`, `count_true`, ...).
- `src/board_utils.rs`: creating and filling the board, reading rows,
  columns and boxes.
- `src/solver.rs`: direct elimination, box elimination, single candidates.
- `src/solos.rs`: cells that are the only place of a digit in a unit.
- `src/disclusion.rs`: groups of digits confined to as many cells (breadth
  first search over digit sets).
- `src/group_search.rs`: the search finds a smallest group.
- `src/quantum_utils.rs`: digits pinned to a row or column of a box, alone
  (final quantum) or by two boxes together (quantum double).
- `src/progress.rs`: the narrowing laws: every step only removes candidates
  or makes a cell one of its candidates, and changes the board exactly when
  it records a change.
- `src/process.rs`: one round of processing (the first tier that changes
  something), the hypothesis search, and their laws.
- `src/transpose.rs`: the quantum steps treat rows and columns alike (on
  the board mirrored on its diagonal they give the mirrored result).
- `src/soundness.rs`: the steps never remove a digit of a solution the
  board agrees with, and fail only on boards that no solution agrees with.
- `src/text.rs`, `src/input.rs`: the board and changes as text, and typed
  input as changes.
- `app/main.rs`: the interactive program (standard input and output).
- `tests/`: tests on concrete boards.
