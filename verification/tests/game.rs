use hexsnake::board::BoundaryMode;
use hexsnake::coords::{Direction, Offset};
use hexsnake::game::{Config, GameState, Status};

fn config() -> Config {
    Config::default()
}

/// Direct the snake one step toward a target cell, avoiding death.
fn step_toward(state: &GameState, target: Offset) -> Option<Direction> {
    let board = *state.board();
    let head = state.head();
    Direction::all()
        .into_iter()
        .filter(|d| *d != state.direction().opposite())
        .filter_map(|d| board.neighbor(head, d).map(|n| (d, n)))
        .filter(|(_, n)| !state.occupies(*n) || *n == state.tail())
        .min_by_key(|(_, n)| board.distance(*n, target))
        .map(|(d, _)| d)
}

#[test]
fn snake_starts_with_three_segments_moving_north() {
    let state = GameState::new(config());
    assert_eq!(state.snake_len(), 3);
    assert_eq!(state.direction(), Direction::North);
    assert_eq!(state.status(), Status::Running);
    assert!(!state.occupies(state.food()), "food must spawn on free cell");
}

#[test]
fn moving_eats_food_and_grows() {
    let mut state = GameState::new(config());
    let mut eaten = 0;
    for _ in 0..2_000 {
        if state.status() != Status::Running {
            break;
        }
        let food = state.food();
        let before = state.snake_len();
        state.tick(step_toward(&state, food));
        if state.score() as usize > eaten {
            eaten = state.score() as usize;
            assert_eq!(state.snake_len(), before + 1, "snake grows exactly by one");
            assert_ne!(state.food(), state.head(), "food respawned elsewhere");
        }
    }
    assert!(eaten >= 3, "greedy walker should eat a few times, ate {eaten}");
}

#[test]
fn running_into_wall_is_game_over() {
    let mut state = GameState::new(config());
    // Head starts mid-board heading north; the wall is at row 0.
    for _ in 0..config().height {
        state.tick(None);
    }
    assert_eq!(state.status(), Status::GameOver);
}

#[test]
fn periodic_board_wraps_instead_of_dying() {
    let mut state = GameState::new(Config {
        boundary: BoundaryMode::Periodic,
        ..config()
    });
    for _ in 0..3 * config().height {
        state.tick(None);
        // Eating food can happen by chance; only the boundary matters here.
        if state.status() != Status::Running {
            panic!("snake died on a torus while going straight");
        }
    }
}

#[test]
fn reverse_input_is_ignored() {
    let mut state = GameState::new(config());
    let head_before = state.head();
    state.tick(Some(Direction::South)); // 180° turn, must be discarded
    assert_eq!(state.status(), Status::Running);
    assert_eq!(state.direction(), Direction::North);
    assert_eq!(state.head(), Offset::new(head_before.col, head_before.row - 1));
}

#[test]
fn self_bite_is_game_over() {
    // Grow the snake first so a tight turn can actually bite the body.
    let mut state = GameState::new(Config {
        width: 24,
        height: 18,
        ..config()
    });
    while state.score() < 4 && state.status() == Status::Running {
        let food = state.food();
        let dir = step_toward(&state, food);
        state.tick(dir);
    }
    assert_eq!(state.status(), Status::Running, "setup phase died early");

    // Tight clockwise turn: with length >= 7 the head must hit the body.
    let mut survived = 0;
    'outer: for _ in 0..4 {
        for dir in [
            Direction::NorthEast,
            Direction::SouthEast,
            Direction::South,
            Direction::SouthWest,
            Direction::NorthWest,
            Direction::North,
        ] {
            if state.status() != Status::Running {
                break 'outer;
            }
            state.tick(Some(dir));
            survived += 1;
        }
    }
    assert_eq!(
        state.status(),
        Status::GameOver,
        "circling in place must end in a self bite (survived {survived} ticks)"
    );
}

#[test]
fn moving_onto_vacating_tail_is_allowed() {
    // A length-3 snake turning sharply may step onto the cell its tail is
    // just leaving; that must not be fatal.
    let mut state = GameState::new(config());
    let tail = state.tail();
    // Step that targets the current tail cell, if one exists.
    let dir = Direction::all().into_iter().find(|d| {
        state.board().neighbor(state.head(), *d) == Some(tail) && *d != state.direction().opposite()
    });
    if let Some(dir) = dir {
        state.tick(Some(dir));
        assert_eq!(state.status(), Status::Running);
    }
}

#[test]
fn input_queue_buffers_and_deduplicates() {
    let mut state = GameState::new(config());
    state.push_input(Direction::NorthEast);
    state.push_input(Direction::NorthEast); // dropped duplicate
    state.push_input(Direction::SouthEast);
    state.push_input(Direction::South);
    state.push_input(Direction::SouthWest); // dropped, queue full
    state.tick(None);
    assert_eq!(state.direction(), Direction::NorthEast);
    state.tick(None);
    assert_eq!(state.direction(), Direction::SouthEast);
    state.tick(None);
    assert_eq!(state.direction(), Direction::South);
    state.tick(None);
    assert_eq!(state.direction(), Direction::South, "queue exhausted");
}

#[test]
fn same_seed_and_inputs_give_identical_run() {
    let cfg = Config {
        boundary: BoundaryMode::Periodic,
        seed: 42,
        ..config()
    };
    let mut a = GameState::new(cfg);
    let mut b = GameState::new(cfg);
    assert_eq!(a, b);
    for i in 0..500 {
        // Deterministic pseudo-input pattern, including some invalid turns.
        let input = match i % 7 {
            0 => Some(Direction::NorthEast),
            3 => Some(Direction::SouthEast),
            5 => Some(Direction::South),
            _ => None,
        };
        a.tick(input);
        b.tick(input);
        assert_eq!(a, b, "states diverged at tick {i}");
    }
}

#[test]
fn different_seeds_give_different_food() {
    let a = GameState::new(Config { seed: 1, ..config() });
    let b = GameState::new(Config { seed: 2, ..config() });
    // Not guaranteed in general, but stable for these fixed seeds.
    assert_ne!(a.food(), b.food());
}

#[test]
fn full_game_from_start_to_game_over() {
    // Headless complete match: a simple greedy walker plays until it dies.
    let mut state = GameState::new(Config { seed: 7, ..config() });
    let mut ticks = 0u32;
    while state.status() == Status::Running && ticks < 50_000 {
        let food = state.food();
        let dir = step_toward(&state, food);
        state.tick(dir);
        ticks += 1;
    }
    assert_eq!(
        state.status(),
        Status::GameOver,
        "greedy walker should eventually trap itself (score {})",
        state.score()
    );
    assert!(state.score() > 0, "should have eaten before dying");
}

#[test]
fn clear_input_queue_drops_buffered_turns() {
    let mut state = GameState::new(config());
    state.push_input(Direction::NorthEast);
    state.clear_input_queue();
    state.tick(None);
    assert_eq!(state.direction(), Direction::North);
    assert_eq!(state.ticks(), 1);
    assert_eq!(state.ticks_since_food(), 1);
    let snake = state.snake();
    assert_eq!(snake.len(), 3);
    assert_eq!(snake[0], state.head());
    assert_eq!(snake[2], state.tail());
}

/// Every snake cell is marked and nothing else is: the marks count the
/// snake exactly.
fn marks_match_snake(state: &GameState) -> bool {
    let board = *state.board();
    let mut marked = 0usize;
    for row in 0..board.height {
        for col in 0..board.width {
            if state.occupies(Offset::new(col, row)) {
                marked += 1;
            }
        }
    }
    let cells = state.snake();
    let distinct = cells.iter().enumerate().all(|(i, a)| cells[i + 1..].iter().all(|b| a != b));
    distinct && marked == cells.len() && cells.iter().all(|c| state.occupies(*c))
}

#[test]
fn occupancy_marks_follow_the_snake_through_a_game() {
    for seed in 0..6u64 {
        let mut state = GameState::new(Config { seed, ..config() });
        for _ in 0..3_000 {
            if state.status() != Status::Running {
                break;
            }
            let food = state.food();
            state.tick(step_toward(&state, food));
            assert!(marks_match_snake(&state), "seed {seed}");
        }
    }
}
