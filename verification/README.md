# chinese_chess

A small xiangqi engine written in Verus.

- `src/action.rs`: squares (`Coord`) and moves (`Action`).
- `src/board.rs`: the board, its integer view (`Grid`), the cell tests, the score
  and the laws on making and taking back a move.
- `src/history.rs`: the record of moves made (`History`, at most 64), `do_action`
  and `undo`.
- `src/moves.rs`: the move rules of each piece, as spec functions and as the
  verified generator `gen_targets`.
- `src/search.rs`: the negamax value of a position, the fail-hard alpha-beta
  search with random visiting order, and `run_ai`, the engine's turn.
- `src/random.rs`: the calls into `rand`.
- `app/main.rs`: the console game.

Coordinates stepped off the edge of the board are treated as off-board squares,
as the wrapping `u8` arithmetic of a release build gives them; the value given to
the capture of a general uses the same wrapping arithmetic (see `capture_value`).
