# go_tui

A game of go for the terminal, against a built-in engine, an outside GTP engine, or a friend
at the same keyboard; games can be saved as SGF and gone through move by move with the engine's
verdict on each move.

The library under `src/` is verified with Verus:

- `game`, `geometry`, `walk`: the board, chains and liberties, legal moves, captures, ko,
  territory and area scoring, handicap stones, coordinates.
- `play_laws`, `laws`: what moves do (no suicide, every dead chain taken, two passes end the
  game, coordinates read back, settings lists step round and back).
- `sgf`, `record_laws`: reading and writing game records; a record written out reads back.
- `gtp`: the commands and replies of the text protocol outside engines speak.
- `ai`: the built-in engine's candidate moves, random playouts, search tree, time budget,
  and how results are merged and ranked.
- `analysis`: what going through a game finds, and the verdict on each move.
- `config`, `config_laws`: the settings file; settings written out read back.
- `app`, `session`, `session_laws`, `review`, `keys`, `panels`, `board_view`: the client's
  state, what each key does on each screen, the game being played (moves, clocks, hints,
  undo), the game under review, and what the board and the panels show.

`app/` is the terminal program around it: the key loop with crossterm, drawing with ratatui,
the colour schemes, files, the outside engine's process, threads, and the part of the search
that scores moves in floating point.
