# chess

A chess engine whose rules, search and protocol logic are verified with Verus.

* `src/` is the verified library: boards and FEN (`board`, `fen`, `fen_out`,
  `fen_laws`), move generation and playing moves (`magics`, `legality`,
  `movegen`, `makemove`, `perft`), evaluation (`nnue`, `nnue_laws`, `see`),
  the search (`movepicker`, `search`, `tt`, `time`, `clock`), notation
  (`uci_io`, `san`, `text`), the UCI command logic (`uci`), refereeing games
  and matches between engines (`game_runner`, `tournament`) and Polyglot
  opening books (`opening_book`).
* `app/` is the program around it: command line, standard input and output,
  threads, child engine processes, and the floating-point parts (late-move
  reduction table, Elo estimates).
* `tests/` runs the library on concrete positions.

The network is read at start-up from the file named by `CHESS_NNUE`
(`nn-9931db908a9b.nnue` by default).
