//! The flood-fill survivalist.
use vstd::prelude::*;

use crate::board::Board;
use crate::coords::{dir_index, Direction, Offset};
use crate::game::{tick_rel, view_wf, GameState, GameView, Status};
use crate::strategy::{
    doomed_move, flood_fill, has_safe_move, is_safe_move, lemma_fill_is_reach_set,
    lemma_reach_set_congruent, lemma_safe_move_survives, lists_safe_moves, occupied_after,
    reach_set, safe_moves, Strategy, StrategyDebug,
};

verus! {

/// The state right after move `d`, as far as the flood fill sees it.
pub open spec fn view_after(v: GameView, d: Direction) -> GameView {
    GameView { occupied: occupied_after(v, d), ..v }
}

/// The cell move `d` enters.
pub open spec fn entered(v: GameView, d: Direction) -> Offset {
    v.board.neighbor_of(v.snake[0], d).unwrap()
}

/// Number of free cells the head can still reach after move `d`.
pub open spec fn space_after(v: GameView, d: Direction) -> nat {
    reach_set(view_after(v, d), entered(v, d)).len()
}

/// The food after move `d` from `v` with its input buffer emptied (the
/// state of the tick is unique: the game is deterministic).
pub open spec fn food_after(v: GameView, d: Direction) -> Offset {
    (choose|n: GameView| tick_rel(GameView { queue: Seq::empty(), ..v }, Some(d), n)).food
}

/// How far move `d` leaves the head from the food: the distance from the
/// cell it enters to the food after the move.
pub open spec fn food_distance_after(v: GameView, d: Direction) -> int {
    v.board.dist(entered(v, d), food_after(v, d))
}

/// Flood-fill survivalist ("Raumgreifer"): picks the move that keeps the
/// most free cells reachable; food distance only breaks ties. Plays very
/// defensively — survives long, scores slowly.
pub struct SpaceKeeper {
    debug: StrategyDebug,
}

impl SpaceKeeper {
    /// The cells highlighted after the last decision.
    pub closed spec fn heatmap(&self) -> Seq<Offset> {
        self.debug.heatmap@
    }

    /// What the overlay shows of the last decision.
    pub closed spec fn debug_view(&self) -> StrategyDebug {
        self.debug
    }

    /// A keeper that has not decided yet: nothing to show.
    pub fn new() -> (s: Self)
        ensures
            s.debug_view().path@.len() == 0,
            s.heatmap().len() == 0,
    {
        SpaceKeeper { debug: StrategyDebug::default() }
    }
}

impl Default for SpaceKeeper {
    fn default() -> (s: Self) {
        SpaceKeeper::new()
    }
}

impl Strategy for SpaceKeeper {
    open spec fn suits(&self, board: Board) -> bool {
        true
    }

    fn next_move(&mut self, state: &GameState) -> (d: Direction)
        ensures
            !has_safe_move(state@) ==> d == state@.direction,
            state@.status == Status::Running && has_safe_move(state@) ==> forall|e: Direction|
                #[trigger] is_safe_move(state@, e) ==> space_after(state@, e) <= space_after(
                    state@,
                    d,
                ),
            state@.status == Status::Running && has_safe_move(state@) ==> forall|e: Direction|
                #[trigger] is_safe_move(state@, e) && space_after(state@, e) == space_after(state@, d)
                    ==> food_distance_after(state@, d) <= food_distance_after(state@, e),
            state@.status == Status::Running && has_safe_move(state@) ==> forall|e: Direction|
                #[trigger] is_safe_move(state@, e) && space_after(state@, e) == space_after(state@, d)
                    && food_distance_after(state@, e) == food_distance_after(state@, d) ==> dir_index(d)
                    <= dir_index(e),
            state@.status == Status::Running && has_safe_move(state@)
                ==> final(self).heatmap().to_set() == reach_set(
                view_after(state@, d),
                entered(state@, d),
            ),
    {
        let ghost v = state@;
        proof {
            state.lemma_wf_view();
        }
        let board = *state.board();
        let moves = safe_moves(state);
        let mut best: Option<(Direction, usize, u32)> = None;
        let mut reachable: Vec<Offset> = Vec::new();
        let mut best_reachable: Vec<Offset> = Vec::new();
        let mut i: usize = 0;
        while i < moves.len()
            invariant
                v == state@,
                state.wf(),
                view_wf(v),
                board == v.board,
                v.board.distances_fit(),
                v.ticks < u64::MAX,
                v.snake.len() < u32::MAX - 2,
                lists_safe_moves(v, moves@),
                0 <= i <= moves@.len(),
                best is None <==> i == 0,
                best matches Some(b) ==> is_safe_move(v, b.0) && exists|k: int|
                    0 <= k < i && #[trigger] moves@[k].0 == b.0,
                v.status == Status::Running && best is Some ==> {
                    let b = best.unwrap();
                    &&& b.1 == space_after(v, b.0)
                    &&& best_reachable@.to_set() == reach_set(view_after(v, b.0), entered(v, b.0))
                    &&& forall|j: int|
                        0 <= j < i ==> space_after(v, #[trigger] moves@[j].0) <= b.1
                    &&& b.2 == food_distance_after(v, b.0)
                    &&& forall|j: int|
                        0 <= j < i && space_after(v, #[trigger] moves@[j].0) == b.1
                            && food_distance_after(v, moves@[j].0) == b.2 ==> dir_index(b.0) <= dir_index(
                            moves@[j].0,
                        )
                    &&& forall|j: int|
                        0 <= j < i && space_after(v, #[trigger] moves@[j].0) == b.1 ==> b.2
                            <= food_distance_after(v, moves@[j].0)
                },
            decreases moves@.len() - i,
        {
            let dir = moves[i].0;
            proof {
                assert(is_safe_move(v, moves@[i as int].0));
            }
            let mut sim = state.clone();
            sim.clear_input_queue();
            let ghost cleared = sim@;
            sim.tick(Some(dir));
            proof {
                sim.lemma_wf_view();
                if v.status == Status::Running {
                    lemma_safe_move_survives(cleared, dir, sim@);
                }
            }
            let head = sim.head();
            flood_fill(&sim, head, &mut reachable);
            let space = reachable.len();
            proof {
                if v.status == Status::Running {
                    lemma_fill_is_reach_set(sim@, head, reachable@);
                    lemma_reach_set_congruent(sim@, view_after(v, dir), head);
                }
                crate::board::lemma_distance_computable(v.board, head, sim@.food);
            }
            let food_dist = board.distance(head, sim.food());
            proof {
                if v.status == Status::Running {
                    let n = choose|n: GameView| tick_rel(GameView { queue: Seq::empty(), ..v }, Some(dir), n);
                    assert(cleared == GameView { queue: Seq::empty(), ..v });
                    crate::game::lemma_tick_deterministic(cleared, Some(dir), n, sim@);
                    assert(food_dist as int == food_distance_after(v, dir));
                }
            }
            let better = match best {
                None => true,
                Some((_, s, fd)) => space > s || (space == s && food_dist < fd),
            };
            if better {
                best = Some((dir, space, food_dist));
                std::mem::swap(&mut best_reachable, &mut reachable);
            }
            i += 1;
        }
        self.debug.heatmap = best_reachable;
        self.debug.path.clear();
        match best {
            Some((dir, _, _)) => {
                proof {
                    assert forall|e: Direction|
                        v.status == Status::Running && #[trigger] is_safe_move(v, e) implies space_after(
                        v,
                        e,
                    ) <= space_after(v, dir) && (space_after(v, e) == space_after(v, dir)
                        ==> food_distance_after(v, dir) <= food_distance_after(v, e)) by {
                        let j = choose|j: int| 0 <= j < moves@.len() && moves@[j].0 == e;
                        assert(space_after(v, moves@[j].0) <= space_after(v, dir));
                    }
                    assert forall|e: Direction|
                        v.status == Status::Running && #[trigger] is_safe_move(v, e) && space_after(v, e)
                            == space_after(v, dir) && food_distance_after(v, e) == food_distance_after(
                            v,
                            dir,
                        ) implies dir_index(dir) <= dir_index(e) by {
                        let j = choose|j: int| 0 <= j < moves@.len() && moves@[j].0 == e;
                        assert(dir_index(dir) <= dir_index(moves@[j].0));
                    }
                }
                dir
            },
            None => {
                proof {
                    assert forall|e: Direction| !is_safe_move(v, e) by {
                        if is_safe_move(v, e) {
                            let j = choose|j: int| 0 <= j < moves@.len() && moves@[j].0 == e;
                        }
                    }
                }
                doomed_move(state)
            },
        }
    }

    fn debug(&self) -> (r: Option<&StrategyDebug>)
        ensures
            r matches Some(x) && *x == self.debug_view(),
    {
        Some(&self.debug)
    }
}

} // verus!
