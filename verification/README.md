# chess_search

Two parts of a chess engine's search, verified with Verus: the staged move picker, which gives
out the moves of a position one at a time with the most promising first, and the time manager,
which decides how long to think about a move.

- `src/movepick.rs`, `src/scoring.rs`: the picker and the scores by which it orders moves;
  `src/movepick_laws.rs` states what holds over all calls of a picker, and
  `src/movepick_runs.rs` where the moves of a run come from and in which order they come.
- `src/time.rs`: limits, bounds and their checks; `src/time_laws.rs` states what holds of them.
- `src/binary64.rs`, `src/rounding.rs`: the bounds are computed in binary64, which is carried out
  here with integers, with every rounding specified.
- `src/board.rs`, `src/thread.rs`: what the picker reads of a position and of a search thread, as
  plain data that the engine fills in.
- `src/types.rs`, `src/bitboard.rs`, `src/lookup.rs`, `src/search.rs`, `src/duration.rs`: pieces,
  moves, sets of squares, attacks, kinds of nodes, and lengths of time.
- `app/`: what the search sees in floating point, around the library.
