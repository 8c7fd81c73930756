use hexsnake::board::BoundaryMode;
use hexsnake::game::{Config, GameState, Status};
use hexsnake::strategy::chaos::ChaosWalker;
use hexsnake::strategy::greedy::Greedy;
use hexsnake::strategy::planner::PathPlanner;
use hexsnake::strategy::space::SpaceKeeper;
use hexsnake::strategy::{flood_fill, safe_moves, Strategy};

fn config(boundary: BoundaryMode) -> Config {
    Config {
        width: 16,
        height: 12,
        boundary,
        seed: 3,
    }
}

#[test]
fn chaos_never_dies_while_a_safe_move_exists() {
    for seed in 0..5 {
        let mut state = GameState::new(Config {
            seed,
            ..config(BoundaryMode::Walls)
        });
        let mut chaos = ChaosWalker::new(seed);
        for _ in 0..1_000 {
            if state.status() != Status::Running {
                break;
            }
            let had_safe_move = !safe_moves(&state).is_empty();
            let dir = chaos.next_move(&state);
            state.tick(Some(dir));
            if had_safe_move {
                assert_eq!(
                    state.status(),
                    Status::Running,
                    "chaos walker died although a safe move existed (seed {seed})"
                );
            }
        }
    }
}

#[test]
fn chaos_is_deterministic_per_seed() {
    let state = GameState::new(config(BoundaryMode::Periodic));
    let mut a = ChaosWalker::new(7);
    let mut b = ChaosWalker::new(7);
    for _ in 0..100 {
        assert_eq!(a.next_move(&state), b.next_move(&state));
    }
}

#[test]
fn greedy_moves_toward_food() {
    // On a fresh board every food-ward move is safe, so the very first
    // greedy move must strictly reduce the distance to the food.
    for boundary in [BoundaryMode::Walls, BoundaryMode::Periodic] {
        for seed in 0..10 {
            let mut state = GameState::new(Config {
                seed,
                ..config(boundary)
            });
            let before = state.board().distance(state.head(), state.food());
            let mut greedy = Greedy;
            let dir = greedy.next_move(&state);
            state.tick(Some(dir));
            let after = state.board().distance(state.head(), state.food());
            assert!(
                after < before,
                "greedy did not approach food (seed {seed}, {boundary:?}): {before} -> {after}"
            );
        }
    }
}

#[test]
fn planner_eats_first_food_on_shortest_path() {
    for boundary in [BoundaryMode::Walls, BoundaryMode::Periodic] {
        let mut state = GameState::new(config(boundary));
        let expected = state.board().distance(state.head(), state.food());
        let mut planner = PathPlanner::new();
        let mut steps = 0;
        while state.score() == 0 && steps < 500 {
            let dir = planner.next_move(&state);
            state.tick(Some(dir));
            steps += 1;
            assert_eq!(state.status(), Status::Running);
        }
        assert_eq!(
            steps, expected,
            "planner should reach the first food on a shortest path ({boundary:?})"
        );
    }
}

#[test]
fn safe_moves_excludes_reverse_and_walls() {
    let state = GameState::new(config(BoundaryMode::Walls));
    let moves = safe_moves(&state);
    assert!(moves.iter().all(|(d, _)| *d != state.direction().opposite()));
    assert!(!moves.is_empty());
}

#[test]
fn flood_fill_on_fresh_board_reaches_every_free_cell() {
    let state = GameState::new(config(BoundaryMode::Walls));
    let mut cells = Vec::new();
    flood_fill(&state, state.head(), &mut cells);
    // 192 cells minus the three snake cells.
    assert_eq!(cells.len(), 189);
    assert!(cells.iter().all(|c| !state.occupies(*c)));
}

#[test]
fn space_keeper_picks_a_safe_move_with_the_most_room() {
    let state = GameState::new(config(BoundaryMode::Walls));
    let mut keeper = SpaceKeeper::new();
    let dir = keeper.next_move(&state);
    assert!(safe_moves(&state).iter().any(|(d, _)| *d == dir));
    let heat = keeper.debug().unwrap().heatmap.len();
    assert!(heat >= 188 && heat <= 189, "reachable area {heat}");
}

#[test]
fn overlay_data_comes_from_the_planning_strategies() {
    let state = GameState::new(config(BoundaryMode::Walls));
    assert!(Greedy.debug().is_none());
    assert!(ChaosWalker::new(1).debug().is_none());
    let mut planner = PathPlanner::new();
    planner.next_move(&state);
    let shown = planner.debug().expect("the planner shows its path");
    assert!(!shown.path.is_empty());
    let keeper = SpaceKeeper::new();
    let fresh = keeper.debug().expect("the keeper shows its area");
    assert!(fresh.path.is_empty() && fresh.heatmap.is_empty());
}

#[test]
fn chaos_walkers_with_one_seed_walk_alike() {
    let mut state_a = GameState::new(config(BoundaryMode::Periodic));
    let mut state_b = GameState::new(config(BoundaryMode::Periodic));
    let mut a = ChaosWalker::new(42);
    let mut b = ChaosWalker::new(42);
    for _ in 0..50 {
        if state_a.status() != Status::Running {
            break;
        }
        let da = a.next_move(&state_a);
        let db = b.next_move(&state_b);
        assert_eq!(da, db);
        state_a.tick(Some(da));
        state_b.tick(Some(db));
    }
}
