//! A running game as the player sees it: the game state, the run recorder,
//! speed and pause, scripted inputs and the autopilot. Drawing, timing and
//! key reading belong to the surrounding app, which feeds this session one
//! key or one due tick at a time.
use std::collections::VecDeque;

use vstd::prelude::*;

use crate::board::Board;
use crate::client::SessionEvent;
use crate::coords::{Direction, Offset};
use crate::game::{config_board, playable, Config, GameState, GameView, Status};
use crate::replay::{
    input_at, lemma_input_at_extend, lemma_trace_extend, strictly_increasing, valid_trace, Recorder,
    Replay,
};
use crate::settings::{dimensions_of, Settings, Speed, StrategyChoice};
use crate::game::pcg_range_usize;
use crate::strategy::chaos::ChaosWalker;
use crate::strategy::greedy::{greedy_choice, Greedy};
use crate::strategy::hamilton::{rider_choice, serpentine_compatible, HamiltonRider};
use crate::strategy::planner::{astar_answer, planner_choice, vacate_table, PathPlanner};
use crate::strategy::space::{food_distance_after, space_after, SpaceKeeper};
use crate::strategy::{has_safe_move, is_safe_move, lists_safe_moves, Strategy};
use crate::theme::ThemeId;

verus! {

/// Ticks a session plays at most; the run recorder counts ticks in `u32`.
pub const SESSION_TICK_LIMIT: u32 = 4_294_967_287;

/// The library's autopilots.
pub enum Autopilot {
    Chaos(ChaosWalker),
    Greedy(Greedy),
    Planner(PathPlanner),
    Space(SpaceKeeper),
    Hamilton(HamiltonRider),
}

impl Autopilot {
    /// The autopilot's tables were built for this board.
    pub open spec fn suits(&self, board: Board) -> bool {
        match self {
            Autopilot::Chaos(s) => s.suits(board),
            Autopilot::Greedy(s) => s.suits(board),
            Autopilot::Planner(s) => s.suits(board),
            Autopilot::Space(s) => s.suits(board),
            Autopilot::Hamilton(s) => s.suits(board),
        }
    }

    /// The move each autopilot makes, as its own contract states it, and
    /// the autopilot it leaves (of the same kind).
    pub open spec fn choice(self, after: Autopilot, v: GameView, d: Direction) -> bool {
        match (self, after) {
            (Autopilot::Chaos(a), Autopilot::Chaos(b)) => {
                &&& !has_safe_move(v) ==> d == v.direction && b.rng_view() == a.rng_view()
                &&& has_safe_move(v) ==> exists|moves: Seq<(Direction, Offset)>|
                    #[trigger] lists_safe_moves(v, moves) && 0 < moves.len() && d == moves[pcg_range_usize(
                        a.rng_view(),
                        moves.len() as usize,
                    ).0 as int].0 && b.rng_view() == pcg_range_usize(
                        a.rng_view(),
                        moves.len() as usize,
                    ).1
            },
            (Autopilot::Greedy(_), Autopilot::Greedy(_)) => greedy_choice(v, d),
            (Autopilot::Planner(_), Autopilot::Planner(_)) => exists|food_route: Option<Seq<Direction>>|
                #[trigger] astar_answer(v, v.food, vacate_table(v), food_route) && planner_choice(
                    v,
                    food_route,
                    d,
                ),
            (Autopilot::Space(_), Autopilot::Space(_)) => {
                &&& !has_safe_move(v) ==> d == v.direction
                &&& v.status == Status::Running && has_safe_move(v) ==> forall|e: Direction|
                    #[trigger] is_safe_move(v, e) ==> space_after(v, e) <= space_after(v, d)
                &&& v.status == Status::Running && has_safe_move(v) ==> forall|e: Direction|
                    #[trigger] is_safe_move(v, e) && space_after(v, e) == space_after(v, d)
                        ==> food_distance_after(v, d) <= food_distance_after(v, e)
            },
            (Autopilot::Hamilton(a), Autopilot::Hamilton(b)) => {
                &&& rider_choice(v, a.cycle_view(), a.position_view(), d)
                &&& b.cycle_view() == a.cycle_view()
                &&& b.position_view() == a.position_view()
            },
            _ => false,
        }
    }

    /// The autopilot's move for the current state: a safe one whenever one
    /// exists, chosen as the autopilot's own contract says.
    pub fn next_move(&mut self, state: &GameState) -> (d: Direction)
        requires
            state.wf(),
            state@.board.distances_fit(),
            state@.ticks < u64::MAX,
            state@.snake.len() < u32::MAX - 2,
            old(self).suits(state@.board),
        ensures
            final(self).suits(state@.board),
            state@.status == Status::Running && has_safe_move(state@) ==> is_safe_move(state@, d),
            old(self).choice(*final(self), state@, d),
    {
        match self {
            Autopilot::Chaos(s) => s.next_move(state),
            Autopilot::Greedy(s) => s.next_move(state),
            Autopilot::Planner(s) => s.next_move(state),
            Autopilot::Space(s) => s.next_move(state),
            Autopilot::Hamilton(s) => s.next_move(state),
        }
    }
}

/// Whether the library has an autopilot for this choice on this board: the
/// learned and sampling strategies are not part of it, and Hamilton needs a
/// board with a serpentine cycle.
pub open spec fn autopilot_available(choice: StrategyChoice, board: Board) -> bool {
    match choice {
        StrategyChoice::Chaos | StrategyChoice::Greedy | StrategyChoice::Planner
        | StrategyChoice::Space => true,
        StrategyChoice::Hamilton => serpentine_compatible(board.width as int, board.height as int),
        _ => false,
    }
}

/// The autopilot for a strategy choice, built for `board`; `None` for the
/// human player and where no autopilot is available.
pub fn build_autopilot(choice: StrategyChoice, seed: u64, board: &Board) -> (a: Option<Autopilot>)
    requires
        board.wf(),
        board.cell_count() <= i32::MAX,
    ensures
        a is Some <==> autopilot_available(choice, *board),
        a matches Some(p) ==> p.suits(*board),
{
    match choice {
        StrategyChoice::Chaos => Some(Autopilot::Chaos(ChaosWalker::new(seed))),
        StrategyChoice::Greedy => Some(Autopilot::Greedy(Greedy)),
        StrategyChoice::Planner => Some(Autopilot::Planner(PathPlanner::new())),
        StrategyChoice::Space => Some(Autopilot::Space(SpaceKeeper::new())),
        StrategyChoice::Hamilton => match HamiltonRider::new(board) {
            Some(rider) => Some(Autopilot::Hamilton(rider)),
            None => None,
        },
        _ => None,
    }
}

/// A key the session reacts to.
#[derive(Debug, Clone, Copy, PartialEq, Eq, Structural)]
pub enum SessionKey {
    /// One of the six direction keys (or touch-pad buttons).
    Steer(Direction),
    /// Autopilot on/off.
    ToggleAutopilot,
    /// Strategy overlay on/off.
    ToggleOverlay,
    /// P: pause while the game runs.
    Pause,
    /// Space: pause while the game runs, restart once it is over.
    Space,
    /// Back to the menu (Escape).
    Escape,
    /// Enter: restart once the game is over.
    Enter,
}

/// What a session knows, for contracts.
pub ghost struct SessionView {
    pub game: GameView,
    pub config: Config,
    pub inputs: Seq<(u32, Direction)>,
    pub recorded_ticks: int,
    pub speed: Speed,
    pub slowest_speed: Speed,
    pub paused: bool,
    pub script: Seq<Direction>,
    pub strategy: StrategyChoice,
    pub has_autopilot: bool,
    pub autopilot_on: bool,
    pub autopilot_used: bool,
    pub overlay_on: bool,
    /// Whether a direction was ever pushed by hand. Hand inputs go straight
    /// into the game's input buffer and are not recorded.
    pub steered_by_hand: bool,
}

/// `trace` is a run of the recorded inputs, one state per recorded tick,
/// ending in `game`, whose input buffer is empty.
#[verifier::opaque]
pub open spec fn run_recorded(
    config: Config,
    inputs: Seq<(u32, Direction)>,
    trace: Seq<GameView>,
    ticks: int,
    game: GameView,
) -> bool {
    &&& valid_trace(config, inputs, trace)
    &&& trace.len() == ticks + 1
    &&& trace.last() == game
}

/// The autopilot `before` chose `input` for the game `v` and became
/// `after`, as [`Autopilot::choice`] states.
pub open spec fn autopilot_stepped(
    before: Option<Autopilot>,
    after: Option<Autopilot>,
    v: GameView,
    input: Option<Direction>,
) -> bool {
    match (before, after, input) {
        (Some(a), Some(b), Some(d)) => a.choice(b, v, d),
        _ => false,
    }
}

/// The game with its input buffer emptied.
pub open spec fn cleared(g: GameView) -> GameView {
    GameView { queue: Seq::empty(), ..g }
}

/// The game a due tick starts from: with the autopilot on, buffered inputs
/// are dropped first.
pub open spec fn tick_start(v: SessionView) -> GameView {
    if v.autopilot_on {
        cleared(v.game)
    } else {
        v.game
    }
}

/// Speeds ordered from slowest to fastest.
pub open spec fn speed_rank(s: Speed) -> int {
    match s {
        Speed::Slow => 0,
        Speed::Normal => 1,
        Speed::Fast => 2,
    }
}

pub struct GameSession {
    state: GameState,
    recorder: Recorder,
    config: Config,
    seed: u64,
    speed: Speed,
    /// Slowest speed used at any point: highscores are filed under it.
    slowest_speed: Speed,
    paused: bool,
    /// Scripted inputs, consumed one per tick.
    script: VecDeque<Direction>,
    strategy_choice: StrategyChoice,
    theme: ThemeId,
    autopilot: Option<Autopilot>,
    autopilot_on: bool,
    overlay_on: bool,
    /// True once the autopilot steered at least one tick; such runs are kept
    /// out of the highscores.
    autopilot_used: bool,
    prev_score: u32,
    prev_status: Status,
    steered_by_hand: Ghost<bool>,
    /// The states of the game so far, one per recorded tick.
    trace: Ghost<Seq<GameView>>,
}

impl View for GameSession {
    type V = SessionView;

    closed spec fn view(&self) -> SessionView {
        SessionView {
            game: self.state@,
            config: self.config,
            inputs: self.recorder@.inputs,
            recorded_ticks: self.recorder@.tick,
            speed: self.speed,
            slowest_speed: self.slowest_speed,
            paused: self.paused,
            script: self.script@,
            strategy: self.strategy_choice,
            has_autopilot: self.autopilot is Some,
            autopilot_on: self.autopilot_on,
            autopilot_used: self.autopilot_used,
            overlay_on: self.overlay_on,
            steered_by_hand: self.steered_by_hand@,
        }
    }
}

impl GameSession {
    /// The session's consistency.
    pub closed spec fn wf(&self) -> bool {
        &&& self.state.wf()
        &&& self.state@.board == config_board(self.config)
        &&& self.seed == self.config.seed
        &&& config_board(self.config).distances_fit()
        &&& playable(self.config.width as int, self.config.height as int)
        &&& self.autopilot matches Some(a) ==> a.suits(self.state@.board)
        &&& self.autopilot is None ==> !self.autopilot_on
        &&& speed_rank(self.slowest_speed) <= speed_rank(self.speed)
        &&& self.state@.ticks <= self.recorder@.tick <= SESSION_TICK_LIMIT
        &&& strictly_increasing(self.recorder@.inputs)
        &&& forall|i: int|
            0 <= i < self.recorder@.inputs.len() ==> (#[trigger] self.recorder@.inputs[i]).0
                < self.recorder@.tick
        &&& !self.steered_by_hand@ ==> self.state@.queue.len() == 0
        &&& !self.steered_by_hand@ ==> run_recorded(
            self.config,
            self.recorder@.inputs,
            self.trace@,
            self.recorder@.tick,
            self.state@,
        )
    }

    /// A new game for the chosen settings and seed; `script` holds inputs to
    /// feed one per tick.
    pub fn new(settings: &Settings, seed: u64, script: &[Direction]) -> (s: GameSession)
        requires
            playable(dimensions_of(*settings).0 as int, dimensions_of(*settings).1 as int),
            dimensions_of(*settings).0 <= 0x1000_0000,
            dimensions_of(*settings).1 <= 0x1000_0000,
        ensures
            s.wf(),
            s@.config == (Config {
                width: dimensions_of(*settings).0,
                height: dimensions_of(*settings).1,
                boundary: settings.boundary,
                seed,
            }),
            crate::game::initial_rel(s@.config, s@.game),
            s@.inputs.len() == 0,
            s@.recorded_ticks == 0,
            s@.speed == settings.speed,
            s@.slowest_speed == settings.speed,
            !s@.paused,
            s@.script == script@,
            s@.strategy == settings.strategy,
            s@.has_autopilot == autopilot_available(settings.strategy, config_board(s@.config)),
            s@.autopilot_on == s@.has_autopilot,
            !s@.autopilot_used,
            !s@.overlay_on,
            !s@.steered_by_hand,
            s.theme_view() == settings.theme,
    {
        let (width, height) = settings.dimensions();
        let config = Config { width, height, boundary: settings.boundary, seed };
        let state = GameState::new(config);
        let autopilot = build_autopilot(settings.strategy, seed, state.board());
        let autopilot_on = autopilot.is_some();
        let mut queue: VecDeque<Direction> = VecDeque::new();
        let mut i: usize = 0;
        while i < script.len()
            invariant
                0 <= i <= script@.len(),
                queue@ == script@.subrange(0, i as int),
            decreases script@.len() - i,
        {
            queue.push_back(script[i]);
            proof {
                assert(script@.subrange(0, i + 1) =~= script@.subrange(0, i as int).push(
                    script@[i as int],
                ));
            }
            i += 1;
        }
        proof {
            assert(script@.subrange(0, script@.len() as int) =~= script@);
        }
        let ghost trace = seq![state@];
        proof {
            reveal(run_recorded);
        }
        GameSession {
            state,
            recorder: Recorder::new(),
            config,
            seed,
            speed: settings.speed,
            slowest_speed: settings.speed,
            paused: false,
            script: queue,
            strategy_choice: settings.strategy,
            theme: settings.theme,
            autopilot,
            autopilot_on,
            overlay_on: false,
            autopilot_used: false,
            prev_score: 0,
            prev_status: Status::Running,
            steered_by_hand: Ghost(false),
            trace: Ghost(trace),
        }
    }

    pub fn autopilot_used(&self) -> (r: bool)
        ensures
            r == self@.autopilot_used,
    {
        self.autopilot_used
    }

    /// The recorded run as a submittable replay (seed + input list). A run
    /// that was never steered by hand is one of the runs its replay admits:
    /// re-simulating the replay can reproduce this very game.
    pub fn replay(&self) -> (r: Replay)
        requires
            self.wf(),
        ensures
            r.config_spec() == self@.config,
            r.inputs@ == self@.inputs,
            !self@.steered_by_hand ==> exists|trace: Seq<GameView>|
                #[trigger] valid_trace(r.config_spec(), r.inputs@, trace) && trace.last()
                    == self@.game && trace.len() == self@.recorded_ticks + 1,
    {
        let r = self.recorder.to_replay(self.config);
        proof {
            reveal(run_recorded);
            if !self.steered_by_hand@ {
                assert(valid_trace(r.config_spec(), r.inputs@, self.trace@));
            }
        }
        r
    }

    /// The speed whose highscore table this run counts toward.
    pub fn slowest_speed(&self) -> (s: Speed)
        ensures
            s == self@.slowest_speed,
    {
        self.slowest_speed
    }

    pub fn game_state(&self) -> (g: &GameState)
        ensures
            g@ == self@.game,
    {
        &self.state
    }

    pub fn overlay_on(&self) -> (r: bool)
        ensures
            r == self@.overlay_on,
    {
        self.overlay_on
    }

    pub fn paused(&self) -> (r: bool)
        ensures
            r == self@.paused,
    {
        self.paused
    }

    pub fn autopilot_on(&self) -> (r: bool)
        ensures
            r == self@.autopilot_on,
    {
        self.autopilot_on
    }

    /// The current speed and the theme the session is drawn with.
    pub fn speed(&self) -> (s: Speed)
        ensures
            s == self@.speed,
    {
        self.speed
    }

    pub fn theme(&self) -> (t: ThemeId)
        ensures
            t == self.theme_view(),
    {
        self.theme
    }

    /// The theme the session is drawn with.
    pub closed spec fn theme_view(&self) -> ThemeId {
        self.theme
    }

    /// The seed the game was started with.
    pub fn seed(&self) -> (s: u64)
        requires
            self.wf(),
        ensures
            s == self@.config.seed,
    {
        self.seed
    }

    /// Switch speed; the slowest speed ever used is remembered.
    pub fn set_speed(&mut self, speed: Speed)
        requires
            old(self).wf(),
        ensures
            final(self).wf(),
            final(self)@ == (SessionView {
                speed,
                slowest_speed: if speed_rank(speed) < speed_rank(old(self)@.slowest_speed) {
                    speed
                } else {
                    old(self)@.slowest_speed
                },
                ..old(self)@
            }),
    {
        self.speed = speed;
        if speed_rank_of(speed) < speed_rank_of(self.slowest_speed) {
            self.slowest_speed = speed;
        }
    }

    /// Switch the autopilot strategy: a new choice builds its autopilot for
    /// this board, turns it on if there is one, and drops buffered inputs.
    pub fn choose_strategy(&mut self, choice: StrategyChoice)
        requires
            old(self).wf(),
        ensures
            final(self).wf(),
            choice == old(self)@.strategy ==> final(self)@ == old(self)@,
            choice != old(self)@.strategy ==> final(self)@ == (SessionView {
                game: cleared(old(self)@.game),
                strategy: choice,
                has_autopilot: autopilot_available(choice, old(self)@.game.board),
                autopilot_on: autopilot_available(choice, old(self)@.game.board),
                ..old(self)@
            }),
    {
        if choice != self.strategy_choice {
            self.strategy_choice = choice;
            proof {
                self.state.lemma_wf_view();
            }
            let board = *self.state.board();
            self.autopilot = build_autopilot(choice, self.seed, &board);
            self.autopilot_on = self.autopilot.is_some();
            let ghost g0 = self.state@;
            self.state.clear_input_queue();
            proof {
                reveal(run_recorded);
                if !self.steered_by_hand@ {
                    assert(g0.queue =~= Seq::<Direction>::empty());
                    assert(self.state@ == g0);
                }
            }
        }
    }

    /// React to one key. Steering always hands control back to the player;
    /// pause works only while the game runs; Enter (or Space) restarts a
    /// finished game and Escape leaves to the menu.
    pub fn handle_key(&mut self, key: SessionKey) -> (ev: SessionEvent)
        requires
            old(self).wf(),
        ensures
            final(self).wf(),
            ev == match key {
                SessionKey::Escape => SessionEvent::BackToMenu,
                SessionKey::Enter | SessionKey::Space => if old(self)@.game.status != Status::Running {
                    SessionEvent::Restart
                } else {
                    SessionEvent::Continue
                },
                _ => SessionEvent::Continue,
            },
            match key {
                SessionKey::Steer(d) => final(self)@ == (SessionView {
                    game: GameView {
                        queue: crate::game::queue_after_push(
                            if old(self)@.autopilot_on {
                                Seq::empty()
                            } else {
                                old(self)@.game.queue
                            },
                            d,
                        ),
                        ..old(self)@.game
                    },
                    autopilot_on: false,
                    steered_by_hand: true,
                    ..old(self)@
                }),
                SessionKey::ToggleAutopilot => final(self)@ == (SessionView {
                    autopilot_on: if old(self)@.has_autopilot {
                        !old(self)@.autopilot_on
                    } else {
                        old(self)@.autopilot_on
                    },
                    ..old(self)@
                }),
                SessionKey::ToggleOverlay => final(self)@ == (SessionView {
                    overlay_on: !old(self)@.overlay_on,
                    ..old(self)@
                }),
                SessionKey::Pause | SessionKey::Space => final(self)@ == (SessionView {
                    paused: if old(self)@.game.status == Status::Running {
                        !old(self)@.paused
                    } else {
                        old(self)@.paused
                    },
                    ..old(self)@
                }),
                _ => final(self)@ == old(self)@,
            },
    {
        let running = self.state.status() == Status::Running;
        match key {
            SessionKey::Steer(dir) => {
                if self.autopilot_on {
                    self.autopilot_on = false;
                    self.state.clear_input_queue();
                }
                self.state.push_input(dir);
                self.steered_by_hand = Ghost(true);
                SessionEvent::Continue
            },
            SessionKey::ToggleAutopilot => {
                if self.autopilot.is_some() {
                    self.autopilot_on = !self.autopilot_on;
                }
                SessionEvent::Continue
            },
            SessionKey::ToggleOverlay => {
                self.overlay_on = !self.overlay_on;
                SessionEvent::Continue
            },
            SessionKey::Pause => {
                if running {
                    self.paused = !self.paused;
                }
                SessionEvent::Continue
            },
            SessionKey::Space => {
                if running {
                    self.paused = !self.paused;
                    SessionEvent::Continue
                } else {
                    SessionEvent::Restart
                }
            },
            SessionKey::Escape => SessionEvent::BackToMenu,
            SessionKey::Enter => {
                if running {
                    SessionEvent::Continue
                } else {
                    SessionEvent::Restart
                }
            },
        }
    }

    /// One due game tick: nothing while paused or once the game is over (or
    /// at the tick limit); otherwise the autopilot's move when it is on
    /// (buffered inputs are dropped first), else the next scripted input.
    /// The input is recorded and fed to the game. Returns whether a tick was
    /// played.
    #[verifier::spinoff_prover]
    pub fn step(&mut self) -> (played: bool)
        requires
            old(self).wf(),
        ensures
            final(self).wf(),
            played == (!old(self)@.paused && old(self)@.game.status == Status::Running
                && old(self)@.recorded_ticks < SESSION_TICK_LIMIT),
            !played ==> final(self)@ == old(self)@,
            played ==> {
                &&& final(self)@.recorded_ticks == old(self)@.recorded_ticks + 1
                &&& final(self)@.steered_by_hand == old(self)@.steered_by_hand
                &&& final(self)@.autopilot_used == (old(self)@.autopilot_used
                    || old(self)@.autopilot_on)
                &&& !old(self)@.autopilot_on ==> final(self)@.script == (if old(self)@.script.len() > 0 {
                    old(self)@.script.drop_first()
                } else {
                    old(self)@.script
                })
                &&& exists|input: Option<Direction>|
                    {
                        &&& final(self)@.inputs == match input {
                            Some(d) => old(self)@.inputs.push(
                                (old(self)@.recorded_ticks as u32, d),
                            ),
                            None => old(self)@.inputs,
                        }
                        &&& #[trigger] crate::game::tick_rel(
                            tick_start(old(self)@),
                            input,
                            final(self)@.game,
                        )
                        &&& !old(self)@.autopilot_on ==> input == (if old(self)@.script.len() > 0 {
                            Some(old(self)@.script[0])
                        } else {
                            None
                        })
                        &&& old(self)@.autopilot_on && has_safe_move(
                            cleared(old(self)@.game),
                        ) ==> (input matches Some(d) && is_safe_move(cleared(old(self)@.game), d))
                        &&& old(self)@.autopilot_on ==> autopilot_stepped(
                            old(self).autopilot_view(),
                            final(self).autopilot_view(),
                            cleared(old(self)@.game),
                            input,
                        )
                    }
            },
    {
        if self.paused || self.state.status() != Status::Running
            || self.recorder.ticks() >= SESSION_TICK_LIMIT {
            return false;
        }
        let ghost start = self.state@;
        proof {
            if !self.steered_by_hand@ {
                assert(start.queue =~= Seq::<Direction>::empty());
                assert(cleared(start) == start);
            }
        }
        let input = self.next_input();
        proof {
            self.state.lemma_wf_view();
        }
        let ghost before = self.state@;
        let ghost old_inputs = self.recorder@.inputs;
        let ghost t = self.recorder@.tick;
        self.recorder.record(input);
        self.state.tick(input);
        proof {
            crate::game::lemma_tick_counts(before, input, self.state@);
            lemma_record_tick(self.config, old_inputs, self.trace@, t, input, self.recorder@.inputs);
            if !self.steered_by_hand@ {
                crate::game::lemma_tick_keeps_queue_empty(before, input, self.state@);
                lemma_run_recorded_step(
                    self.config,
                    old_inputs,
                    self.recorder@.inputs,
                    self.trace@,
                    t,
                    input,
                    before,
                    self.state@,
                );
            }
        }
        self.trace = Ghost(self.trace@.push(self.state@));
        proof {
            assert(before == tick_start(old(self)@));
            assert(crate::game::tick_rel(tick_start(old(self)@), input, self.state@));
        }
        true
    }

    /// The input of a due tick: the autopilot's move when it is on (after
    /// dropping buffered inputs), else the next scripted input.
    fn next_input(&mut self) -> (input: Option<Direction>)
        requires
            old(self).wf(),
            old(self)@.game.status == Status::Running,
            old(self)@.recorded_ticks < SESSION_TICK_LIMIT,
        ensures
            final(self).state.wf(),
            final(self).state@ == tick_start(old(self)@),
            final(self).autopilot matches Some(a) ==> a.suits(final(self).state@.board),
            final(self).autopilot is Some == old(self).autopilot is Some,
            final(self).recorder == old(self).recorder,
            final(self).config == old(self).config,
            final(self).seed == old(self).seed,
            final(self).speed == old(self).speed,
            final(self).slowest_speed == old(self).slowest_speed,
            final(self).paused == old(self).paused,
            final(self).strategy_choice == old(self).strategy_choice,
            final(self).theme == old(self).theme,
            final(self).autopilot_on == old(self).autopilot_on,
            final(self).overlay_on == old(self).overlay_on,
            final(self).prev_score == old(self).prev_score,
            final(self).prev_status == old(self).prev_status,
            final(self).steered_by_hand == old(self).steered_by_hand,
            final(self).trace == old(self).trace,
            final(self).autopilot_used == (old(self).autopilot_used || old(self).autopilot_on),
            old(self).autopilot_on ==> final(self).script@ == old(self).script@,
            !old(self).autopilot_on ==> final(self).script@ == (if old(self).script@.len() > 0 {
                old(self).script@.drop_first()
            } else {
                old(self).script@
            }),
            !old(self).autopilot_on ==> input == (if old(self).script@.len() > 0 {
                Some(old(self).script@[0])
            } else {
                None
            }),
            old(self).autopilot_on && has_safe_move(cleared(old(self)@.game)) ==> (input matches Some(
                d,
            ) && is_safe_move(cleared(old(self)@.game), d)),
            old(self).autopilot_on ==> autopilot_stepped(
                old(self).autopilot,
                final(self).autopilot,
                cleared(old(self)@.game),
                input,
            ),
    {
        proof {
            self.state.lemma_wf_view();
        }
        if self.autopilot_on {
            self.state.clear_input_queue();
            self.autopilot_used = true;
            proof {
                self.state.lemma_wf_view();
                assert(self.state@ == cleared(old(self)@.game));
            }
            match self.autopilot.take() {
                Some(mut ap) => {
                    let d = ap.next_move(&self.state);
                    self.autopilot = Some(ap);
                    Some(d)
                },
                None => None,
            }
        } else {
            self.script.pop_front()
        }
    }

    /// What changed since the last call: the cell where food was just eaten
    /// (the head), and whether the game just ended. The app starts its eat
    /// and game-over effects from these.
    pub fn detect_effects(&mut self) -> (fx: (Option<Offset>, bool))
        requires
            old(self).wf(),
        ensures
            final(self).wf(),
            final(self)@ == old(self)@,
            fx.0 == (if old(self)@.game.score > old(self).prev_score_view() {
                Some(old(self)@.game.snake[0])
            } else {
                None
            }),
            fx.1 == (old(self)@.game.status != Status::Running && old(self).prev_status_view()
                == Status::Running),
            final(self).prev_score_view() == old(self)@.game.score,
            final(self).prev_status_view() == old(self)@.game.status,
    {
        let score = self.state.score();
        let ate = if score > self.prev_score {
            Some(self.state.head())
        } else {
            None
        };
        self.prev_score = score;
        let status = self.state.status();
        let ended = status != Status::Running && self.prev_status == Status::Running;
        self.prev_status = status;
        (ate, ended)
    }

    /// The session's autopilot, if it has one.
    pub closed spec fn autopilot_view(&self) -> Option<Autopilot> {
        self.autopilot
    }

    /// The score and status seen by the last effect check.
    pub closed spec fn prev_score_view(&self) -> u32 {
        self.prev_score
    }

    pub closed spec fn prev_status_view(&self) -> Status {
        self.prev_status
    }
}

/// A recorded run extended by one recorded tick is a recorded run.
proof fn lemma_run_recorded_step(
    config: Config,
    inputs: Seq<(u32, Direction)>,
    recorded: Seq<(u32, Direction)>,
    trace: Seq<GameView>,
    t: int,
    input: Option<Direction>,
    before: GameView,
    after: GameView,
)
    requires
        0 <= t < u32::MAX,
        strictly_increasing(inputs),
        forall|i: int| 0 <= i < inputs.len() ==> (#[trigger] inputs[i]).0 < t,
        recorded == match input {
            Some(d) => inputs.push((t as u32, d)),
            None => inputs,
        },
        run_recorded(config, inputs, trace, t, before),
        crate::game::tick_rel(before, input, after),
    ensures
        run_recorded(config, recorded, trace.push(after), t + 1, after),
{
    reveal(run_recorded);
    lemma_record_tick(config, inputs, trace, t, input, recorded);
    lemma_trace_extend(config, recorded, trace, input, after);
}

/// Recording one more tick keeps the schedule increasing and below the tick
/// count, and keeps the recorded states a valid run of it.
proof fn lemma_record_tick(
    config: Config,
    inputs: Seq<(u32, Direction)>,
    trace: Seq<GameView>,
    t: int,
    input: Option<Direction>,
    recorded: Seq<(u32, Direction)>,
)
    requires
        0 <= t < u32::MAX,
        strictly_increasing(inputs),
        forall|i: int| 0 <= i < inputs.len() ==> (#[trigger] inputs[i]).0 < t,
        recorded == match input {
            Some(d) => inputs.push((t as u32, d)),
            None => inputs,
        },
    ensures
        strictly_increasing(recorded),
        forall|i: int| 0 <= i < recorded.len() ==> (#[trigger] recorded[i]).0 < t + 1,
        input_at(recorded, t) == input,
        valid_trace(config, inputs, trace) && trace.len() == t + 1 ==> valid_trace(
            config,
            recorded,
            trace,
        ),
{
    let e = (t as u32, match input {
        Some(d) => d,
        None => Direction::North,
    });
    lemma_input_at_extend(inputs, e, t);
    assert forall|k: int| 0 <= k < t implies input_at(recorded, k) == input_at(inputs, k) by {
        lemma_input_at_extend(inputs, e, k);
    }
    if valid_trace(config, inputs, trace) && trace.len() == t + 1 {
        assert forall|k: int| 0 <= k < trace.len() - 1 implies crate::game::tick_rel(
            #[trigger] trace[k],
            input_at(recorded, k),
            trace[k + 1],
        ) by {
            assert(input_at(recorded, k) == input_at(inputs, k));
        }
    }
}

fn speed_rank_of(s: Speed) -> (r: u8)
    ensures
        r as int == speed_rank(s),
{
    match s {
        Speed::Slow => 0,
        Speed::Normal => 1,
        Speed::Fast => 2,
    }
}

/// The slowest speed ever set bounds the current one: a run is never filed
/// under a faster table than any speed it was played at.
pub proof fn lemma_slowest_speed_bounds(s: GameSession)
    requires
        s.wf(),
    ensures
        speed_rank(s@.slowest_speed) <= speed_rank(s@.speed),
{
}

} // verus!
