# Hex

An engine for Hex on a board of 11 by 11 cells: a bitboard, tree search with random games, tree
search guided by a neural network, and the parts of a distributed training run. The engine is a
library that Verus verifies; the programs around it are ordinary Rust.

## Layout

- `src/hex.rs`: the game as mathematics, up to the fact that a full board has exactly one winner
- `src/bits.rs`, `src/bb.rs`, `src/board_laws.rs`: the bitboard, and what holds of every game on it
- `src/mcts.rs`, `src/mcts2.rs`: tree search that keeps its tree, and tree search in an arena
- `src/agent.rs`, `src/game.rs`, `src/rank.rs`, `src/ui.rs`: players, matches, rankings, a board to
  play on
- `src/pretty.rs`, `src/xpm.rs`, `src/parse.rs`, `src/text.rs`: boards as text and images
- `src/util.rs`: ordering of floating point numbers by their bits, running totals, units
- `src/nn/`: symmetries, what a model is asked, guided search, the moves that a model makes,
  checkpoints
- `src/nn/train/`: positions and their storage, the controller and its clients, self play
- `src/rng.rs`, `src/clock.rs`, `src/arena.rs`, `src/nn/train/outbox.rs`: what is taken from outside
  and not proved, besides the hash and the map in `src/nn/train/models.rs`, the bit count in
  `src/bits.rs` and the characters in `src/text.rs`
- `app/`: command line, files, network, threads, and all computing with floating point numbers

Floating point numbers do not occur in the library. It carries them by their bits, orders them, and
leaves the arithmetic to its callers: a scoring function for tree search, an `Arithmetic` for guided
search, a function from planes to policies and values for evaluation.

## Distributed training

The `daemon` command implements different training workloads as components that communicate over
HTTP:

- `controller` stores and serves model parameters and self play data
- `optimizer` uses self play data to do gradient descent
- `selfplay` uses model parameters to generate self play data

Components are configured with the following environment variables

- Common
  - `RUST_LOG` (optional, but `info` is recommended)
  - `HEX_TRAIN_ROLE` (required)
  - `HEX_TRAIN_CONTROLLER_URL` (required except for controller)
  - `HEX_TRAIN_MODEL_ID` (required except for controller)
- For `HEX_TRAIN_ROLE=controller`
  - `PORT` (default 3000)
  - `HEX_TRAIN_ROOT` (default `data`)
- For `HEX_TRAIN_ROLE=optimizer`
  - `HEX_TRAIN_OPTIMIZER_MAX_POSITIONS` (default 500000)
  - `HEX_TRAIN_OPTIMIZER_UPLOAD_INTERVAL` (seconds, default 300)
  - `HEX_TRAIN_OPTIMIZER_BATCH_SIZE` (default 256)
  - `HEX_TRAIN_OPTIMIZER_MOMENTUM` (default 0.7)
  - `HEX_TRAIN_OPTIMIZER_LEARNING_RATE` (default 0.02)
- For `HEX_TRAIN_ROLE=selfplay`
  - `HEX_TRAIN_SELF_PLAY_BATCH_EVALS` (default 32)
  - `HEX_TRAIN_SELF_PLAY_CONCURRENCY` (default 128)
  - `HEX_TRAIN_SELF_PLAY_ITERS` (default 800)
