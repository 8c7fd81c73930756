//! Headless games: play one game with a strategy until it ends or a tick
//! cap is reached.
use vstd::prelude::*;

use crate::coords::Direction;
use crate::game::{
    config_board, initial_rel, playable, tick_rel, view_wf, Config, GameState, GameView, Status,
};
use crate::replay::running_until_last;
use crate::strategy::{has_safe_move, is_safe_move, lemma_safe_move_survives, Strategy};

verus! {

#[derive(Debug, Clone, Copy, PartialEq, Eq, Structural)]
pub struct GameResult {
    pub score: u32,
    pub ticks: u64,
    pub status: Status,
}

/// A game was lost from a running state in which no move was safe: the
/// snake was trapped.
pub open spec fn lost_trapped(last: GameView) -> bool {
    exists|prev: GameView, d: Direction|
        view_wf(prev) && prev.status == Status::Running && !has_safe_move(prev) && #[trigger] tick_rel(
            prev,
            Some(d),
            last,
        )
}

/// `trace` is a game of `config` played with `moves`: it starts in the
/// initial state and each step is a tick with the next move.
pub open spec fn played(config: Config, moves: Seq<Direction>, trace: Seq<GameView>) -> bool {
    &&& trace.len() == moves.len() + 1
    &&& initial_rel(config, trace[0])
    &&& forall|t: int|
        0 <= t < moves.len() ==> tick_rel(#[trigger] trace[t], Some(moves[t]), trace[t + 1])
}

/// The result reports the last state of a game of `config` that was played
/// until it ended or reached `max_ticks` ticks.
pub open spec fn result_of_play(config: Config, max_ticks: u64, r: GameResult) -> bool {
    exists|moves: Seq<Direction>, trace: Seq<GameView>|
        #[trigger] played(config, moves, trace) && running_until_last(trace) && (
        trace.last().status != Status::Running || trace.last().ticks == max_ticks) && r.score
            == trace.last().score && r.ticks == trace.last().ticks && r.status
            == trace.last().status
}

/// Play one full game headless. `max_ticks` caps strategies that can stall
/// forever (e.g. tail chasing). A strategy never loses while it has a safe
/// move, so a lost game ends in a trap.
pub fn play_game<S: Strategy>(strategy: &mut S, config: Config, max_ticks: u64) -> (r: GameResult)
    requires
        playable(config.width as int, config.height as int),
        config_board(config).distances_fit(),
        old(strategy).suits(config_board(config)),
    ensures
        r.status != Status::Running || r.ticks >= max_ticks,
        r.ticks <= max_ticks || r.ticks == 0,
        r.score <= r.ticks,
        r.status == Status::GameOver ==> exists|last: GameView|
            #[trigger] lost_trapped(last) && last.status == Status::GameOver && last.score == r.score
                && last.ticks == r.ticks,
        result_of_play(config, max_ticks, r),
{
    let mut state = GameState::new(config);
    let ghost mut moves: Seq<Direction> = Seq::empty();
    let ghost mut trace: Seq<GameView> = seq![state@];
    while state.status() == Status::Running && state.ticks() < max_ticks
        invariant
            state.wf(),
            played(config, moves, trace),
            running_until_last(trace),
            trace.last() == state@,
            state@.board == config_board(config),
            config_board(config).distances_fit(),
            strategy.suits(config_board(config)),
            state@.queue.len() == 0,
            state@.ticks <= max_ticks || state@.ticks == 0,
            state@.status == Status::GameOver ==> lost_trapped(state@),
        decreases (max_ticks - state@.ticks) * 2 + if state@.status == Status::Running {
            1int
        } else {
            0int
        },
    {
        proof {
            state.lemma_wf_view();
            crate::game::lemma_snake_fits(state@);
        }
        let ghost before = state@;
        let dir = strategy.next_move(&state);
        state.tick(Some(dir));
        proof {
            crate::game::lemma_tick_counts(before, Some(dir), state@);
            crate::game::lemma_tick_queue_empty(before, dir, state@);
            if has_safe_move(before) {
                lemma_safe_move_survives(before, dir, state@);
            } else {
                assert(tick_rel(before, Some(dir), state@));
                assert(lost_trapped(state@));
            }
            state.lemma_wf_view();
            let next_trace = trace.push(state@);
            let next_moves = moves.push(dir);
            assert forall|t: int| 0 <= t < next_moves.len() implies tick_rel(
                #[trigger] next_trace[t],
                Some(next_moves[t]),
                next_trace[t + 1],
            ) by {
                if t < moves.len() {
                    assert(next_trace[t] == trace[t]);
                    assert(next_trace[t + 1] == trace[t + 1]);
                }
            }
            assert forall|t: int| 0 <= t < next_trace.len() - 1 implies (
            #[trigger] next_trace[t]).status == Status::Running by {
                if t < trace.len() - 1 {
                    assert(next_trace[t] == trace[t]);
                }
            }
            trace = next_trace;
            moves = next_moves;
        }
    }
    proof {
        state.lemma_wf_view();
        assert(played(config, moves, trace));
    }
    GameResult { score: state.score(), ticks: state.ticks(), status: state.status() }
}

} // verus!
