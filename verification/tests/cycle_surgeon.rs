use hexsnake::board::{Board, BoundaryMode};
use hexsnake::game::{Config, GameState, Status};
use hexsnake::strategy::cycle_surgeon::CycleSurgeon;
use hexsnake::strategy::hamilton::assert_valid_cycle_order;
use hexsnake::strategy::Strategy;

/// Rebuild the ordered cycle and check it is a valid Hamiltonian cycle.
fn assert_cycle_valid(surgeon: &CycleSurgeon, board: &Board) {
    let (order, _) = surgeon.rebuild_order(board);
    assert!(assert_valid_cycle_order(board, &order));
}

#[test]
fn wins_both_topologies_and_stays_valid() {
    for boundary in [BoundaryMode::Walls, BoundaryMode::Periodic] {
        for seed in 0..20 {
            let config = Config {
                width: 16,
                height: 12,
                boundary,
                seed,
            };
            let mut state = GameState::new(config);
            let mut surgeon = CycleSurgeon::new(state.board()).unwrap();
            let board = *state.board();
            let mut ticks = 0;
            while state.status() == Status::Running && ticks < 20_000 {
                let dir = surgeon.next_move(&state);
                // Invariant: the cycle stays a valid Hamiltonian cycle after
                // every reshape.
                assert_cycle_valid(&surgeon, &board);
                state.tick(Some(dir));
                ticks += 1;
            }
            assert_eq!(
                state.status(),
                Status::Won,
                "surgeon must win ({boundary:?}, seed {seed}), score {}",
                state.score()
            );
        }
    }
}

#[test]
fn deterministic_same_seed() {
    let config = Config {
        width: 16,
        height: 12,
        boundary: BoundaryMode::Walls,
        seed: 7,
    };
    let run = || {
        let mut state = GameState::new(config);
        let mut surgeon = CycleSurgeon::new(state.board()).unwrap();
        let mut moves = Vec::new();
        let mut ticks = 0;
        while state.status() == Status::Running && ticks < 20_000 {
            let dir = surgeon.next_move(&state);
            moves.push(dir);
            state.tick(Some(dir));
            ticks += 1;
        }
        moves
    };
    assert_eq!(run(), run(), "same seed gives an identical move sequence");
}

#[test]
fn wins_on_larger_board() {
    let config = Config {
        width: 24,
        height: 18,
        boundary: BoundaryMode::Periodic,
        seed: 0,
    };
    let mut state = GameState::new(config);
    let mut surgeon = CycleSurgeon::new(state.board()).unwrap();
    let mut ticks = 0;
    while state.status() == Status::Running && ticks < 45_000 {
        let dir = surgeon.next_move(&state);
        state.tick(Some(dir));
        ticks += 1;
    }
    assert_eq!(state.status(), Status::Won, "score {}", state.score());
}
