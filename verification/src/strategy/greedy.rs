//! The greedy food chaser.
use vstd::prelude::*;

use crate::board::Board;
use crate::coords::{dir_index, Direction};
use crate::game::{view_wf, GameState, GameView};
use crate::strategy::{doomed_move, has_safe_move, is_safe_move, safe_moves, Strategy};

verus! {

/// Distance from the cell a move enters to the food.
pub open spec fn food_distance_after(v: GameView, d: Direction) -> int {
    v.board.dist(v.board.neighbor_of(v.snake[0], d).unwrap(), v.food)
}

/// The greedy choice: a safe move closest to the food, the first in clockwise
/// order among equally close ones; straight ahead when no move is safe.
pub open spec fn greedy_choice(v: GameView, d: Direction) -> bool {
    if has_safe_move(v) {
        &&& is_safe_move(v, d)
        &&& forall|e: Direction|
            #[trigger] is_safe_move(v, e) ==> food_distance_after(v, d) <= food_distance_after(v, e)
        &&& forall|e: Direction|
            #[trigger] is_safe_move(v, e) && dir_index(e) < dir_index(d) ==> food_distance_after(v, d)
                < food_distance_after(v, e)
    } else {
        d == v.direction
    }
}

/// Picks the safe move that minimizes the (torus-aware) hex distance to the
/// food. Fast and simple, but happily walls itself in.
pub struct Greedy;

impl Strategy for Greedy {
    open spec fn suits(&self, board: Board) -> bool {
        true
    }

    fn next_move(&mut self, state: &GameState) -> (d: Direction)
        ensures
            greedy_choice(state@, d),
    {
        let ghost v = state@;
        proof {
            state.lemma_wf_view();
        }
        let board = state.board();
        let food = state.food();
        let moves = safe_moves(state);
        if moves.len() == 0 {
            proof {
                assert forall|e: Direction| !is_safe_move(v, e) by {
                    if is_safe_move(v, e) {
                        let i = choose|i: int| 0 <= i < moves@.len() && moves@[i].0 == e;
                    }
                }
            }
            return doomed_move(state);
        }
        proof {
            assert(is_safe_move(v, moves@[0].0));
            crate::board::lemma_neighbor_in_bounds(v.board, v.snake[0], moves@[0].0);
            crate::board::lemma_distance_computable(v.board, moves@[0].1, food);
        }
        let mut best: usize = 0;
        let mut best_dist = board.distance(moves[0].1, food);
        let mut i: usize = 1;
        while i < moves.len()
            invariant
                v == state@,
                v.board.wf(),
                v.board.in_bounds(v.snake[0]),
                v.board.in_bounds(v.food),
                *board == v.board,
                food == v.food,
                v.board.distances_fit(),
                crate::strategy::lists_safe_moves(v, moves@),
                1 <= i <= moves@.len(),
                0 <= best < i,
                best_dist as int == food_distance_after(v, moves@[best as int].0),
                forall|j: int| 0 <= j < i ==> best_dist <= food_distance_after(v, #[trigger] moves@[j].0),
                forall|j: int| 0 <= j < best ==> best_dist < food_distance_after(v, #[trigger] moves@[j].0),
            decreases moves@.len() - i,
        {
            let cell = moves[i].1;
            proof {
                assert(is_safe_move(v, moves@[i as int].0));
                crate::board::lemma_neighbor_in_bounds(v.board, v.snake[0], moves@[i as int].0);
                crate::board::lemma_distance_computable(v.board, cell, food);
            }
            let dist = board.distance(cell, food);
            if dist < best_dist {
                best = i;
                best_dist = dist;
            }
            i += 1;
        }
        let d = moves[best].0;
        proof {
            assert(is_safe_move(v, moves@[0].0));
            assert forall|e: Direction| #[trigger] is_safe_move(v, e) implies food_distance_after(v, d)
                <= food_distance_after(v, e) && (dir_index(e) < dir_index(d) ==> food_distance_after(v, d)
                < food_distance_after(v, e)) by {
                let j = choose|j: int| 0 <= j < moves@.len() && moves@[j].0 == e;
                assert(best_dist <= food_distance_after(v, moves@[j].0));
                if dir_index(e) < dir_index(d) {
                    if j >= best {
                        if j > best {
                            assert(dir_index(moves@[best as int].0) < dir_index(moves@[j].0));
                        }
                    }
                }
            }
        }
        d
    }
}

} // verus!
