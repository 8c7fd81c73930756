use hexsnake::board::BoundaryMode;
use hexsnake::coords::Direction;
use hexsnake::game::{Config, GameState, Status};
use hexsnake::replay::{Recorder, Replay, VerifiedRun};

fn cfg() -> Config {
    Config {
        width: 16,
        height: 12,
        boundary: BoundaryMode::Walls,
        seed: 7,
    }
}

/// Greedy walker that records its inputs, used to produce a non-trivial run
/// with a positive score.
fn play_and_record(config: Config) -> (Replay, VerifiedRun) {
    let mut state = GameState::new(config);
    let mut rec = Recorder::new();
    let mut ticks = 0;
    while state.status() == Status::Running && ticks < 50_000 {
        let food = state.food();
        let board = *state.board();
        let head = state.head();
        let input = Direction::all()
            .into_iter()
            .filter(|d| *d != state.direction().opposite())
            .filter_map(|d| board.neighbor(head, d).map(|n| (d, n)))
            .filter(|(_, n)| !state.occupies(*n) || *n == state.tail())
            .min_by_key(|(_, n)| board.distance(*n, food))
            .map(|(d, _)| d);
        rec.record(input);
        state.tick(input);
        ticks += 1;
    }
    let live = VerifiedRun {
        score: state.score(),
        ticks: rec.ticks(),
        status: state.status(),
    };
    (rec.into_replay(config), live)
}

#[test]
fn verified_score_matches_live_run() {
    let (replay, live) = play_and_record(cfg());
    assert!(live.score > 0, "greedy walker should have eaten");
    let verified = replay.verify(100_000).expect("valid run verifies");
    assert_eq!(verified.score, live.score);
    assert_eq!(verified.ticks, live.ticks);
    assert_eq!(verified.status, live.status);
}

#[test]
fn verification_is_deterministic_across_boundaries() {
    for boundary in [BoundaryMode::Walls, BoundaryMode::Periodic] {
        let config = Config { boundary, ..cfg() };
        let (replay, live) = play_and_record(config);
        let again = replay.verify(100_000).unwrap();
        assert_eq!(again.score, live.score, "boundary {boundary:?}");
    }
}

#[test]
fn tampered_score_cannot_be_forged() {
    // The replay carries no score field: identical inputs always verify to
    // one score.
    let (replay, _) = play_and_record(cfg());
    let a = replay.verify(100_000).unwrap();
    let b = replay.clone().verify(100_000).unwrap();
    assert_eq!(a.score, b.score);
}

#[test]
fn rejects_non_increasing_inputs() {
    let replay = Replay {
        width: 16,
        height: 12,
        boundary: BoundaryMode::Walls,
        seed: 0,
        inputs: vec![(5, Direction::NorthEast), (5, Direction::SouthEast)],
    };
    assert!(replay.verify(10_000).is_none());
}

#[test]
fn rejects_input_after_game_end() {
    // A wall run dies after `height` straight ticks; an input scheduled far
    // beyond that is never consumed and must be rejected.
    let replay = Replay {
        width: 16,
        height: 12,
        boundary: BoundaryMode::Walls,
        seed: 0,
        inputs: vec![(10_000, Direction::NorthEast)],
    };
    assert!(replay.verify(100_000).is_none());
}

#[test]
fn rejects_degenerate_board() {
    let replay = Replay {
        width: 1,
        height: 1,
        boundary: BoundaryMode::Walls,
        seed: 0,
        inputs: vec![],
    };
    assert!(replay.verify(10_000).is_none());
}

#[test]
fn rejects_runs_exceeding_tick_budget() {
    // A torus run going straight never dies; with a tiny budget it must be
    // rejected rather than looping forever.
    let replay = Replay {
        width: 16,
        height: 12,
        boundary: BoundaryMode::Periodic,
        seed: 0,
        inputs: vec![],
    };
    assert!(replay.verify(50).is_none());
}

#[test]
fn straight_wall_run_verifies_to_game_over() {
    let replay = Replay {
        width: 16,
        height: 12,
        boundary: BoundaryMode::Walls,
        seed: 0,
        inputs: vec![],
    };
    assert_eq!(replay.config(), Config { width: 16, height: 12, boundary: BoundaryMode::Walls, seed: 0 });
    let run = replay.verify(100).unwrap();
    assert_eq!(run.status, Status::GameOver);
    assert_eq!(run.ticks, 7);
}

#[test]
fn boards_too_low_for_the_snake_are_rejected() {
    // Sixteen cells wide but only four rows: the body that extends south of
    // the center would leave the board.
    let replay = Replay {
        width: 16,
        height: 4,
        boundary: BoundaryMode::Walls,
        seed: 0,
        inputs: vec![],
    };
    assert!(replay.verify(10_000).is_none());
}

#[test]
fn a_finished_run_has_one_outcome_for_every_budget() {
    let (replay, run) = play_and_record(cfg());
    for budget in [run.ticks, run.ticks + 1, 1_000_000] {
        assert_eq!(replay.verify(budget), Some(run));
    }
    assert_eq!(replay.verify(run.ticks - 1), None);
}
