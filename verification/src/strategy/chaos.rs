//! The random baseline.
use rand_pcg::Lcg64Xsh32;
use vstd::prelude::*;

use crate::board::Board;
use crate::coords::{Direction, Offset};
use crate::game::{pcg_below_usize, pcg_from_seed, pcg_range_usize, pcg_seeded, GameState};
use crate::strategy::{
    doomed_move, has_safe_move, is_safe_move, lists_safe_moves, safe_moves, Strategy,
};


verus! {

/// Random baseline: picks uniformly among the moves that are not
/// immediately fatal.
pub struct ChaosWalker {
    rng: Lcg64Xsh32,
}

impl ChaosWalker {
    /// The walker's random generator.
    pub closed spec fn rng_view(&self) -> Lcg64Xsh32 {
        self.rng
    }

    /// A walker whose generator is seeded with `seed`.
    pub fn new(seed: u64) -> (c: Self)
        ensures
            c.rng_view() == pcg_seeded(seed),
    {
        ChaosWalker { rng: pcg_from_seed(seed) }
    }
}

impl Strategy for ChaosWalker {
    open spec fn suits(&self, board: Board) -> bool {
        true
    }

    fn next_move(&mut self, state: &GameState) -> (d: Direction)
        ensures
            !has_safe_move(state@) ==> d == state@.direction && final(self).rng_view() == old(
                self,
            ).rng_view(),
            has_safe_move(state@) ==> exists|moves: Seq<(Direction, Offset)>|
                #[trigger] lists_safe_moves(state@, moves) && 0 < moves.len() && d == moves[pcg_range_usize(
                    old(self).rng_view(),
                    moves.len() as usize,
                ).0 as int].0 && final(self).rng_view() == pcg_range_usize(
                    old(self).rng_view(),
                    moves.len() as usize,
                ).1,
    {
        let moves = safe_moves(state);
        if moves.len() == 0 {
            proof {
                assert forall|e: Direction| !is_safe_move(state@, e) by {
                    if is_safe_move(state@, e) {
                        let i = choose|i: int| 0 <= i < moves@.len() && moves@[i].0 == e;
                    }
                }
            }
            return doomed_move(state);
        }
        let ghost rng0 = self.rng;
        let k = pcg_below_usize(&mut self.rng, moves.len());
        proof {
            assert(is_safe_move(state@, moves@[k as int].0));
            assert(moves@.len() as usize == moves.len());
            assert(lists_safe_moves(state@, moves@));
        }
        moves[k].0
    }
}

} // verus!
