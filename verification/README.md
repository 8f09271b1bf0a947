# board

A Connect Four engine written in Verus.

- `src/` is the verified library: bitboard rules (`game`, `geometry`, `bits`,
  `rules`), the text protocol between a referee and its players and the
  referee's turn (`network`, `command`), a terminal rendering (`display`),
  random playouts (`simulation`) and a negamax search with alpha-beta pruning
  (`eval`, `search`).
- `app/` holds the programs around it: the referee, the search bot, the human
  player and a playout benchmark. They do the network and terminal I/O, read
  arguments and keyboard input, and call the library to read and write
  messages, play moves and search.
- `tests/` runs the library on concrete positions and messages.
