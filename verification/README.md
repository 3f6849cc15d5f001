# gomoku

A Gomoku engine with captures (Ninuki rules): five in a row wins unless the
opponent can break the line by a capture, capturing enough pairs wins, and a
move that makes two free threes at once is forbidden unless it captures. The
engine searches with MTD(f) over alpha-beta with a transposition table, and
runs several searches in parallel (Lazy SMP).

The library in `src/` is written in Verus; every function there carries a
contract that Verus proves.

- `board`, `bitops`: the bitboard and its view as a grid of stones.
- `patterns`, `captures`, `rules`: runs, gapped patterns, captures, wins,
  breakable fives and double threes.
- `zobrist`, `state`: position hashing; the game state with `make_move` and
  `undo_move`, which undoes a move exactly.
- `ai`: the evaluation, move generation and ordering, transposition table
  and caches, the search, and the decisions of the parallel workers.

`app/` holds what is not verified: the WebAssembly bindings, the threads of
the parallel search, reading and writing the configuration, floating-point
statistics and the text game. `tests/` runs the library on concrete
positions.
