# cold_clear

A Tetris versus bot's game rules and board evaluation, written in Verus and proved
against their specifications.

## Layout

- `src/piece.rs`, `src/piece_set.rs`, `src/row.rs`: pieces, their cells, placement kinds
  and garbage tables; sets of pieces; rows packed into bits or colored.
- `src/board.rs`: the playfield with exact column heights, the queue, hold and bag; locking
  a piece (line clears, back-to-back, combo, perfect clears), garbage rows, falling pieces.
- `src/rotation.rs`, `src/moves.rs`: the Super Rotation System's kicks and T-spin corners,
  carrying out one input, spawning, and the movement search that finds every placement a
  piece can reach with the inputs that reach it.
- `src/controller.rs`, `src/executor.rs`, `src/bot_controller.rs`, `src/game.rs`,
  `src/frame.rs`: buttons and their stored byte, turning planned movements into presses,
  driving a bot frame by frame, auto-shift timing, garbage cancelling, garbage rows and their
  events, and a player's game frame by frame: spawning, hold, turns, shifts, the move rule,
  drops, gravity, lock delay and locking.
- `src/dag.rs`, `src/rank.rs`: the search graph of the normal mode, its leaves, expansions and
  moves, and the ranking of children.
- `src/evaluation/`: the evaluators. `standard.rs` is the main one (T-slot cutouts, well,
  bumpiness, holes, rewards); `features.rs` and `shapes.rs` hold its board features and
  T-slot patterns; `holes.rs` finds enclosed regions by flood fill; `weighted.rs`,
  `naive.rs`, `pattern.rs`, `changed.rs` and `misalike.rs` hold the other evaluators.
- `src/opener_book.rs` and `src/opener_book/`: the opening book of the Viper and PCO openers,
  mirroring fields and bags.
- `src/misa.rs`: the field and pieces as MisaMino reads them, reading its reply and finding the
  placement it picked.
- `src/modes/`: the normal mode's bot state and thinkers, the bot that switches modes, and the
  perfect-clear loop.
- `app/`: serde forms of the configuration types, the bot thread and its workers, the loop that
  connects a bot to a game, the pipe to MisaMino, and the random choice of garbage columns.
- `tests/`: tests of the library on concrete boards.
