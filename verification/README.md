# pente_engine

A Pente engine written in Verus: the board and its capture rule, an
Aho–Corasick matcher over board tiles, pattern-based position scoring that
is updated incrementally as moves are played, a move search, and the rules
and board text used by the playable interface.

Layout:

- `src/tile.rs` — stones, players, reading a side's name.
- `src/aho_corasick.rs` — the pattern automaton; `find_matches` reports
  exactly the occurrences of the patterns, in reporting order.
- `src/board.rs` — the board, captures, `apply_move`, and the compact
  `WxH:` grid reader.
- `src/evaluation.rs` — full-board and incremental scoring.
- `src/rescoring.rs` — proof that, after any move on the board, incremental
  scoring agrees with evaluating the whole board again.
- `src/search.rs` — the move search and its specification.
- `src/game.rs` — wins, the board encoding, the AI's move, the game's
  phases at the playable board, and what each displayed cell shows.
- `src/text.rs` — character helpers.
- `app/` — the command-line front end (JSON in and out) and the macroquad
  board (`--ui`).
