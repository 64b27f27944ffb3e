# brandobot_core

The chess logic of the brandobot engine as a verified library: bitboard board
representation with make/unmake and Zobrist keys, legal move generation and
perft, FEN reading and writing, the tapered PeSTO evaluation with mobility and
king safety, an NNUE evaluator, move ordering, the transposition tables, time
management and the iterative-deepening alpha-beta search.

## Layout

- `src/` — the library, checked by Verus. Each module states its behaviour
  over spec functions on a mathematical `Position` (the board's view):
  - `types`, `chess_move`, `zobrist` — squares, pieces, packed moves, key
    generation;
  - `attacks` — leaper and slider attack sets, with `is_square_attacked`;
  - `magic` — magic-bitboard tables for the sliders and the leaper tables,
    with the search for magic numbers;
  - `board` (with `board/fen` and `board/fen_round_trip`) — the board, its
    well-formedness, make/unmake, FEN;
  - `movegen` — pseudo-legal and legal moves, perft, UCI move application and
    the playability check;
  - `eval` (with `eval/mirror`), `pesto` — the hand-written evaluation and its
    tables;
  - `nnue` — the network file format, accumulators and inference;
  - `movesort` — check/capture/quiet ordering, MVV-LVA;
  - `tt` — the exclusive and lockless transposition tables;
  - `search` — budgets, mate scores, killers and history, negamax with
    quiescence, iterative deepening;
  - `clock` — the monotonic clock the search reads;
  - `text`, `sums` — text splitting and finite sums used by the specs.
- `tests/` — the test suite, run against the compiled library.
- `app/` — the Python extension module (PyO3): the `Searcher` class and helper
  functions, file reading, and the checks that inputs meet the library's
  preconditions.

Laws that relate several operations are public proof functions named `law_*`.
