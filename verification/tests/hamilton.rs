use hexsnake::board::{Board, BoundaryMode};
use hexsnake::game::{Config, GameState, Status};
use hexsnake::strategy::hamilton::{
    assert_valid_cycle_order, cyclic_offset, serpentine_cycle, HamiltonRider,
};
use hexsnake::strategy::Strategy;

/// Every generated cycle must visit each cell exactly once, with all
/// consecutive cells (and last→first) being hex neighbors.
fn assert_valid_cycle(width: i32, height: i32) {
    let board = Board::new(width, height, BoundaryMode::Walls);
    let cycle =
        serpentine_cycle(width, height).unwrap_or_else(|| panic!("no cycle for {width}x{height}"));
    assert!(assert_valid_cycle_order(&board, &cycle));
}

#[test]
fn all_three_presets_are_hamilton_compatible() {
    assert_valid_cycle(16, 12);
    assert_valid_cycle(24, 18);
    assert_valid_cycle(32, 24);
}

#[test]
fn small_and_odd_width_boards_work_too() {
    assert_valid_cycle(2, 2);
    assert_valid_cycle(7, 6);
    assert_valid_cycle(9, 4);
}

#[test]
fn odd_height_is_incompatible() {
    assert!(serpentine_cycle(16, 11).is_none());
    assert!(serpentine_cycle(5, 5).is_none());
    assert!(!HamiltonRider::compatible(16, 11));
}

#[test]
fn rider_survives_and_scores_in_both_modes() {
    for boundary in [BoundaryMode::Walls, BoundaryMode::Periodic] {
        let config = Config {
            width: 16,
            height: 12,
            boundary,
            seed: 5,
        };
        let mut state = GameState::new(config);
        let mut rider = HamiltonRider::new(state.board()).unwrap();
        for _ in 0..8_000 {
            if state.status() != Status::Running {
                break;
            }
            let dir = rider.next_move(&state);
            state.tick(Some(dir));
        }
        assert_ne!(
            state.status(),
            Status::GameOver,
            "hamilton rider must not die ({boundary:?}), score {}",
            state.score()
        );
        assert!(
            state.score() >= 20,
            "rider should eat steadily ({boundary:?}), got {}",
            state.score()
        );
    }
}

#[test]
fn cyclic_offset_counts_forward_steps() {
    assert_eq!(cyclic_offset(10, 3, 7), 4);
    assert_eq!(cyclic_offset(10, 7, 3), 6);
    assert_eq!(cyclic_offset(10, 5, 5), 0);
}

#[test]
fn serpentine_starts_in_the_corner_and_returns_up_column_zero() {
    let cycle = serpentine_cycle(4, 2).unwrap();
    let cells: Vec<(i32, i32)> = cycle.iter().map(|c| (c.col, c.row)).collect();
    assert_eq!(cells, vec![(0, 0), (1, 0), (2, 0), (3, 0), (3, 1), (2, 1), (1, 1), (0, 1)]);
}
