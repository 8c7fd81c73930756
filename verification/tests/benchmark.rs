use hexsnake::benchmark::play_game;
use hexsnake::board::BoundaryMode;
use hexsnake::game::{Config, GameState, Status};
use hexsnake::strategy::chaos::ChaosWalker;
use hexsnake::strategy::greedy::Greedy;
use hexsnake::strategy::planner::PathPlanner;
use hexsnake::strategy::space::SpaceKeeper;
use hexsnake::strategy::Strategy;

/// Average score and ticks over `games` games with seeds `0..games`.
fn series<S: Strategy>(make: impl Fn(u64) -> S, base: Config, games: u64, max_ticks: u64) -> (f64, f64) {
    let mut total_score = 0u64;
    let mut total_ticks = 0u64;
    for seed in 0..games {
        let mut strategy = make(seed);
        let result = play_game(&mut strategy, Config { seed, ..base }, max_ticks);
        total_score += u64::from(result.score);
        total_ticks += result.ticks;
    }
    (total_score as f64 / games as f64, total_ticks as f64 / games as f64)
}

#[test]
fn strategy_strength_ordering() {
    let base = Config {
        width: 16,
        height: 12,
        boundary: BoundaryMode::Walls,
        seed: 0,
    };
    let games = 8;
    let max_ticks = 3_000;
    let chaos = series(ChaosWalker::new, base, games, max_ticks);
    let greedy = series(|_| Greedy, base, games, max_ticks);
    let planner = series(|_| PathPlanner::new(), base, games, max_ticks);
    assert!(
        chaos.0 < greedy.0,
        "chaos ({:.2}) should score below greedy ({:.2})",
        chaos.0,
        greedy.0
    );
    assert!(
        greedy.0 < planner.0,
        "greedy ({:.2}) should score below planner ({:.2})",
        greedy.0,
        planner.0
    );
}

#[test]
fn space_keeper_survives_longer_than_chaos() {
    let base = Config {
        width: 16,
        height: 12,
        boundary: BoundaryMode::Walls,
        seed: 0,
    };
    let games = 6;
    let max_ticks = 3_000;
    let chaos = series(ChaosWalker::new, base, games, max_ticks);
    let space = series(|_| SpaceKeeper::new(), base, games, max_ticks);
    assert!(
        space.1 > 2.0 * chaos.1,
        "space keeper ({:.0} ticks) should clearly outlive chaos ({:.0} ticks)",
        space.1,
        chaos.1
    );
}

#[test]
fn ordering_holds_on_torus_too() {
    let base = Config {
        width: 16,
        height: 12,
        boundary: BoundaryMode::Periodic,
        seed: 0,
    };
    let games = 4;
    let max_ticks = 2_000;
    let chaos = series(ChaosWalker::new, base, games, max_ticks);
    let planner = series(|_| PathPlanner::new(), base, games, max_ticks);
    assert!(
        chaos.0 < planner.0,
        "chaos ({:.2}) should score below planner ({:.2}) on the torus",
        chaos.0,
        planner.0
    );
}

#[test]
fn play_game_stops_at_the_tick_cap() {
    let base = Config {
        width: 16,
        height: 12,
        boundary: BoundaryMode::Periodic,
        seed: 1,
    };
    let mut greedy = Greedy;
    let result = play_game(&mut greedy, base, 5);
    assert!(result.status != Status::Running || result.ticks == 5);
    assert!(result.ticks <= 5);
}

#[test]
fn play_game_reports_the_game_it_played() {
    let config = Config { width: 16, height: 12, boundary: BoundaryMode::Periodic, seed: 5 };
    let result = play_game(&mut Greedy, config, 400);
    let mut state = GameState::new(config);
    let mut strategy = Greedy;
    while state.status() == Status::Running && state.ticks() < 400 {
        let dir = strategy.next_move(&state);
        state.tick(Some(dir));
    }
    assert_eq!(result.score, state.score());
    assert_eq!(result.ticks, state.ticks());
    assert_eq!(result.status, state.status());
    assert!(result.status != Status::Running || result.ticks == 400);
}
