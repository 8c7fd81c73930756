# hexsnake

Snake on a hexagonal grid (flat-top hexagons, six directions), with
autopilot strategies, replays that a server re-simulates to check a claimed
score, local and global leaderboards, and the topology side of NEAT
training. The library is written in Verus: every function in `src/` carries
a contract that Verus proves.

## Layout

- `src/` — the verified library.
  - `coords.rs`, `board.rs` — hex offsets, directions, walls or torus
    boundaries, neighbours and distances.
  - `game.rs` — the game state machine. `tick_rel` states one tick
    exactly; food is drawn from the seeded PCG32 generator, so a
    configuration and an input sequence determine every state
    (`lemma_tick_deterministic`, `lemma_initial_deterministic`). In every
    reachable state the occupancy marks are exactly the snake's cells
    (`lemma_marks_are_the_snake`).
  - `replay.rs` — recording inputs and re-simulating a run; a replay has one
    outcome whatever budget it is checked with (`lemma_outcome_unique`,
    `lemma_finished_not_rejected`).
  - `strategy.rs`, `strategy/` — autopilots (greedy, planner, Hamiltonian
    cycle, cycle surgeon, chaos walker) and the safe-move rule they share;
    each states which move it picks (`planner_choice`, `greedy_choice`,
    `rider_choice`, ...).
  - `benchmark.rs` — headless games; `play_game` reports the last state of
    the game it played.
  - `session.rs`, `frontend.rs`, `settings.rs`, `theme.rs`, `stats.rs` — the
    client's decisions: keys, pauses, menus, the autopilot fallback.
  - `highscores.rs`, `seed.rs`, `daily.rs`, `online.rs`, `client.rs`,
    `api.rs` — leaderboards, mode keys, seeds and the wire types.
  - `mode.rs`, `server.rs`, `ratelimit.rs` — the server's checks on a
    submission, the mode keys that name a global table, rate limiting.
  - `nn.rs`, `neat.rs`, `innovation.rs`, `mutation.rs`, `training.rs` —
    network genomes, feed-forward checks, innovation numbers, the structural
    mutations and crossover, and the training bookkeeping.
  - `text.rs` — the string handling the rest needs, with its specs.
- `tests/` — tests of the library, run against the compiled crate.
- `app/` — the HTTP server around the library: routes, JSON, SQLite.

## Trusted boundary

Calls into outside crates sit behind small trusted items whose contracts
say what the crates' sources show: the PCG32 generator (`game.rs`), the
wall clock (`daily.rs`) and `String::push` (`text.rs`).
Each has a doc comment saying what it claims.
