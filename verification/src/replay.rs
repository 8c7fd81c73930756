//! Recording and verification of a complete game run.
//!
//! A run is fully determined by its [`Config`] (board + seed) and the
//! sequence of inputs fed to [`GameState::tick`]. Recording those inputs
//! sparsely — only the ticks that carried a non-`None` input — lets a
//! server re-simulate the run and verify a client-claimed score without
//! trusting the client.
use vstd::prelude::*;

use crate::board::BoundaryMode;
use crate::coords::Direction;
use crate::game::{initial_rel, playable, tick_rel, Config, GameState, GameView, Status};

verus! {

/// Records the inputs of a running game tick by tick, so the run can be
/// turned into a [`Replay`] for submission.
#[derive(Debug, Clone)]
pub struct Recorder {
    tick: u32,
    inputs: Vec<(u32, Direction)>,
}

/// A complete, re-simulatable run: board parameters, seed and the sparse
/// list of inputs. Verifying it replays the run deterministically.
#[derive(Debug, Clone, PartialEq, Eq)]
pub struct Replay {
    pub width: i32,
    pub height: i32,
    pub boundary: BoundaryMode,
    pub seed: u64,
    /// Sparse, strictly increasing by tick: `(tick_index, input)` for the
    /// ticks where the player or strategy supplied an input.
    pub inputs: Vec<(u32, Direction)>,
}

/// Outcome of a verified run.
#[derive(Debug, Clone, Copy, PartialEq, Eq, Structural)]
pub struct VerifiedRun {
    pub score: u32,
    pub ticks: u32,
    pub status: Status,
}

/// The ticks recorded so far (saturating at `u32::MAX`) and the inputs.
pub ghost struct RecorderView {
    pub tick: int,
    pub inputs: Seq<(u32, Direction)>,
}

impl View for Recorder {
    type V = RecorderView;

    closed spec fn view(&self) -> RecorderView {
        RecorderView { tick: self.tick as int, inputs: self.inputs@ }
    }
}

/// Inputs are strictly increasing by tick.
pub open spec fn strictly_increasing(inputs: Seq<(u32, Direction)>) -> bool {
    forall|i: int, j: int| 0 <= i < j < inputs.len() ==> inputs[i].0 < inputs[j].0
}

/// The input scheduled for tick `t`, if any.
pub open spec fn input_at(inputs: Seq<(u32, Direction)>, t: int) -> Option<Direction> {
    if exists|i: int| 0 <= i < inputs.len() && #[trigger] inputs[i].0 == t {
        let i = choose|i: int| 0 <= i < inputs.len() && #[trigger] inputs[i].0 == t;
        Some(inputs[i].1)
    } else {
        None
    }
}

/// Boards that `Replay::verify` rejects before simulating anything.
pub open spec fn degenerate(width: int, height: int) -> bool {
    width < 2 || height < 2 || width * height <= 4
}

/// Boards on which the starting snake fits: not degenerate, and the body
/// that extends south of the center stays on the board.
pub open spec fn hosts_snake(width: int, height: int) -> bool {
    !degenerate(width, height) && playable(width, height)
}

/// What [`Replay::verify`] answers: `None` for a board that cannot host the
/// snake or inputs out of order; otherwise the outcome of the simulation if
/// it ends in time with every input used, else `None`.
pub open spec fn verify_result(r: Replay, max_ticks: u32, res: Option<VerifiedRun>) -> bool {
    &&& !hosts_snake(r.width as int, r.height as int) ==> res is None
    &&& !strictly_increasing(r.inputs@) ==> res is None
    &&& res matches Some(run) ==> finished_run(r, max_ticks, run)
    &&& res is None && hosts_snake(r.width as int, r.height as int) && strictly_increasing(r.inputs@)
        ==> rejected_run(r, max_ticks)
}

/// The sparse input list a recorder holds after recording the per-tick
/// inputs `xs`: `(tick, direction)` for each tick that carried an input.
pub open spec fn recorded(xs: Seq<Option<Direction>>) -> Seq<(u32, Direction)>
    decreases xs.len(),
{
    if xs.len() == 0 {
        Seq::empty()
    } else {
        let prev = recorded(xs.drop_last());
        match xs.last() {
            Some(d) => prev.push(((xs.len() - 1) as u32, d)),
            None => prev,
        }
    }
}

/// `trace` is a live game of `config` fed the per-tick inputs `xs`.
pub open spec fn live_run(config: Config, xs: Seq<Option<Direction>>, trace: Seq<GameView>) -> bool {
    &&& trace.len() == xs.len() + 1
    &&& initial_rel(config, trace[0])
    &&& forall|t: int| 0 <= t < xs.len() ==> tick_rel(#[trigger] trace[t], xs[t], trace[t + 1])
}

/// `trace` is a run of the game: it starts in an initial state of `config`
/// and every step is a tick with the input scheduled for it.
pub open spec fn valid_trace(config: Config, inputs: Seq<(u32, Direction)>, trace: Seq<GameView>) -> bool {
    &&& trace.len() >= 1
    &&& initial_rel(config, trace[0])
    &&& forall|t: int|
        0 <= t < trace.len() - 1 ==> tick_rel(#[trigger] trace[t], input_at(inputs, t), trace[t + 1])
}

/// All states of the trace but possibly the last are still running.
pub open spec fn running_until_last(trace: Seq<GameView>) -> bool {
    forall|t: int| 0 <= t < trace.len() - 1 ==> (#[trigger] trace[t]).status == Status::Running
}

/// The replay's simulation ends after `run.ticks` ticks with the outcome `run`.
pub open spec fn finished_run(r: Replay, max_ticks: u32, run: VerifiedRun) -> bool {
    exists|trace: Seq<GameView>|
        #![trigger valid_trace(r.config_spec(), r.inputs@, trace)]
        {
            &&& valid_trace(r.config_spec(), r.inputs@, trace)
            &&& trace.len() == run.ticks + 1
            &&& running_until_last(trace)
            &&& trace.last().status != Status::Running
            &&& run.status == trace.last().status
            &&& run.score == trace.last().score
            &&& run.ticks <= max_ticks
            &&& forall|i: int| 0 <= i < r.inputs@.len() ==> (#[trigger] r.inputs@[i]).0 < run.ticks
        }
}

/// The replay's simulation is still running after `max_ticks` ticks, or it
/// ends while an input is still scheduled for a later tick.
pub open spec fn rejected_run(r: Replay, max_ticks: u32) -> bool {
    exists|trace: Seq<GameView>|
        #![trigger valid_trace(r.config_spec(), r.inputs@, trace)]
        {
            &&& valid_trace(r.config_spec(), r.inputs@, trace)
            &&& running_until_last(trace)
            &&& {
                ||| trace.len() == max_ticks + 1 && trace.last().status == Status::Running
                ||| trace.last().status != Status::Running && exists|i: int|
                    0 <= i < r.inputs@.len() && (#[trigger] r.inputs@[i]).0 >= trace.len() - 1
            }
        }
}

impl Recorder {
    pub fn new() -> (r: Recorder)
        ensures
            r@.tick == 0,
            r@.inputs == Seq::<(u32, Direction)>::empty(),
    {
        Recorder { tick: 0, inputs: Vec::new() }
    }

    /// Note the input that is about to be fed to [`GameState::tick`]. Call
    /// exactly once per `tick`, in order, with the same value passed to the
    /// game.
    pub fn record(&mut self, input: Option<Direction>)
        ensures
            final(self)@.tick == if old(self)@.tick == u32::MAX {
                u32::MAX as int
            } else {
                old(self)@.tick + 1
            },
            final(self)@.inputs == match input {
                Some(d) => old(self)@.inputs.push((old(self)@.tick as u32, d)),
                None => old(self)@.inputs,
            },
    {
        if let Some(dir) = input {
            self.inputs.push((self.tick, dir));
        }
        self.tick = self.tick.saturating_add(1);
    }

    /// Number of ticks recorded so far.
    pub fn ticks(&self) -> (t: u32)
        ensures
            t as int == self@.tick,
    {
        self.tick
    }

    /// A submittable replay of the inputs recorded so far, leaving the
    /// recorder as it is.
    pub fn to_replay(&self, config: Config) -> (r: Replay)
        ensures
            r.width == config.width,
            r.height == config.height,
            r.boundary == config.boundary,
            r.seed == config.seed,
            r.inputs@ == self@.inputs,
    {
        let mut inputs: Vec<(u32, Direction)> = Vec::new();
        let mut i: usize = 0;
        while i < self.inputs.len()
            invariant
                0 <= i <= self.inputs@.len(),
                inputs@ == self.inputs@.subrange(0, i as int),
            decreases self.inputs@.len() - i,
        {
            inputs.push(self.inputs[i]);
            proof {
                assert(self.inputs@.subrange(0, i + 1) =~= self.inputs@.subrange(0, i as int).push(
                    self.inputs@[i as int],
                ));
            }
            i += 1;
        }
        proof {
            assert(self.inputs@.subrange(0, self.inputs@.len() as int) =~= self.inputs@);
        }
        Replay {
            width: config.width,
            height: config.height,
            boundary: config.boundary,
            seed: config.seed,
            inputs,
        }
    }

    /// Build a submittable replay from the recorded inputs and the config the
    /// game was started with.
    pub fn into_replay(self, config: Config) -> (r: Replay)
        ensures
            r.width == config.width,
            r.height == config.height,
            r.boundary == config.boundary,
            r.seed == config.seed,
            r.inputs@ == self@.inputs,
    {
        Replay {
            width: config.width,
            height: config.height,
            boundary: config.boundary,
            seed: config.seed,
            inputs: self.inputs,
        }
    }
}

impl Default for Recorder {
    fn default() -> (r: Recorder)
        ensures
            r@.tick == 0,
            r@.inputs == Seq::<(u32, Direction)>::empty(),
    {
        Recorder::new()
    }
}

impl Replay {
    pub open spec fn config_spec(self) -> Config {
        Config { width: self.width, height: self.height, boundary: self.boundary, seed: self.seed }
    }

    pub fn config(&self) -> (c: Config)
        ensures
            c == self.config_spec(),
    {
        Config { width: self.width, height: self.height, boundary: self.boundary, seed: self.seed }
    }

    /// Re-simulate the run and return its outcome, or `None` if the replay is
    /// malformed or could not be played out within `max_ticks`.
    ///
    /// The score in the result is authoritative. Rejected as `None`:
    /// - degenerate board dimensions (too small to host the snake),
    /// - inputs not strictly increasing in tick index,
    /// - an input scheduled for a tick the game never reaches,
    /// - a run that does not terminate within `max_ticks`.
    #[verifier::rlimit(100)]
    #[verifier::spinoff_prover]
    pub fn verify(&self, max_ticks: u32) -> (res: Option<VerifiedRun>)
        ensures
            verify_result(*self, max_ticks, res),
    {
        if self.width < 2 || self.height < 2 {
            return None;
        }
        proof {
            let w = self.width as int;
            let h = self.height as int;
            assert(w * h <= 0x7fff_ffff * 0x7fff_ffff) by (nonlinear_arith)
                requires
                    2 <= w <= 0x7fff_ffff,
                    2 <= h <= 0x7fff_ffff,
            ;
        }
        let cells = (self.width as i64) * (self.height as i64);
        if cells <= 4 {
            return None;
        }
        if self.height < 5 || cells > i32::MAX as i64 {
            return None;
        }
        let n = self.inputs.len();
        let mut k: usize = 1;
        while k < n
            invariant
                1 <= k <= n || n == 0,
                n == self.inputs@.len(),
                forall|i: int, j: int|
                    0 <= i < j < k && j < n ==> self.inputs@[i].0 < self.inputs@[j].0,
            decreases n - k,
        {
            if self.inputs[k - 1].0 >= self.inputs[k].0 {
                return None;
            }
            proof {
                assert forall|i: int, j: int|
                    0 <= i < j < k + 1 && j < n implies self.inputs@[i].0 < self.inputs@[j].0 by {
                    if j == k && i < k - 1 {
                        assert(self.inputs@[i].0 < self.inputs@[k - 1].0);
                    }
                }
            }
            k += 1;
        }
        let config = self.config();
        let mut state = GameState::new(config);
        let mut pending: usize = 0;
        let mut tick: u32 = 0;
        let ghost mut trace: Seq<GameView> = seq![state@];
        proof {
            assert(strictly_increasing(self.inputs@));
        }
        while state.status() == Status::Running
            invariant
                state.wf(),
                strictly_increasing(self.inputs@),
                n == self.inputs@.len(),
                0 <= pending <= n,
                forall|i: int| 0 <= i < pending ==> self.inputs@[i].0 < tick,
                pending < n ==> self.inputs@[pending as int].0 >= tick,
                valid_trace(config, self.inputs@, trace),
                trace.len() == tick + 1,
                trace.last() == state@,
                running_until_last(trace),
                state@.ticks <= tick,
                0 <= state@.score <= state@.ticks,
                config == self.config_spec(),
                tick <= max_ticks,
            decreases max_ticks - tick,
        {
            if tick >= max_ticks {
                proof {
                    lemma_budget_spent(*self, max_ticks, trace);
                }
                return None;
            }
            let input = if pending < n && self.inputs[pending].0 == tick {
                let dir = self.inputs[pending].1;
                pending += 1;
                Some(dir)
            } else {
                None
            };
            proof {
                lemma_input_at(self.inputs@, pending as int, tick as int, input);
                state.lemma_wf_view();
            }
            let ghost before = state@;
            state.tick(input);
            proof {
                lemma_verify_step(config, self.inputs@, trace, input, state@, tick as int);
                trace = trace.push(state@);
                state.lemma_wf_view();
            }
            tick += 1;
        }
        if pending < n {
            proof {
                assert(self.inputs@[pending as int].0 >= trace.len() - 1);
                assert(rejected_run(*self, max_ticks));
            }
            return None;
        }
        let run = VerifiedRun { score: state.score(), ticks: tick, status: state.status() };
        proof {
            assert(finished_run(*self, max_ticks, run));
        }
        Some(run)
    }
}

/// Appending an input for a later tick changes nothing for the earlier
/// ticks; the new tick gets the new input.
pub proof fn lemma_input_at_extend(inputs: Seq<(u32, Direction)>, e: (u32, Direction), t: int)
    requires
        strictly_increasing(inputs),
        forall|i: int| 0 <= i < inputs.len() ==> (#[trigger] inputs[i]).0 < e.0,
    ensures
        t < e.0 ==> input_at(inputs.push(e), t) == input_at(inputs, t),
        input_at(inputs.push(e), e.0 as int) == Some(e.1),
        input_at(inputs, e.0 as int) is None,
{
    let ext = inputs.push(e);
    if t < e.0 {
        if exists|i: int| 0 <= i < inputs.len() && #[trigger] inputs[i].0 == t {
            let i = choose|i: int| 0 <= i < inputs.len() && #[trigger] inputs[i].0 == t;
            assert(ext[i].0 == t);
            let j = choose|j: int| 0 <= j < ext.len() && #[trigger] ext[j].0 == t;
            if j < i {
                assert(inputs[j].0 < inputs[i].0);
            } else if i < j {
                assert(j < inputs.len());
                assert(inputs[i].0 < inputs[j].0);
            }
        } else {
            if exists|j: int| 0 <= j < ext.len() && #[trigger] ext[j].0 == t {
                let j = choose|j: int| 0 <= j < ext.len() && #[trigger] ext[j].0 == t;
                assert(j < inputs.len());
                assert(inputs[j].0 == t);
            }
        }
    }
    assert(ext[inputs.len() as int] == e);
    let j = choose|j: int| 0 <= j < ext.len() && #[trigger] ext[j].0 == e.0;
    if j < inputs.len() {
        assert(inputs[j].0 < e.0);
    }
    if exists|i: int| 0 <= i < inputs.len() && #[trigger] inputs[i].0 == e.0 {
        let i = choose|i: int| 0 <= i < inputs.len() && #[trigger] inputs[i].0 == e.0;
        assert(inputs[i].0 < e.0);
    }
}

/// A valid trace extended by one tick with the input scheduled for it stays
/// valid.
pub proof fn lemma_trace_extend(
    config: Config,
    inputs: Seq<(u32, Direction)>,
    trace: Seq<GameView>,
    input: Option<Direction>,
    next: GameView,
)
    requires
        valid_trace(config, inputs, trace),
        input_at(inputs, trace.len() - 1) == input,
        tick_rel(trace.last(), input, next),
    ensures
        valid_trace(config, inputs, trace.push(next)),
        running_until_last(trace) && trace.last().status == Status::Running ==> running_until_last(
            trace.push(next),
        ),
{
    let ext = trace.push(next);
    assert forall|t: int| 0 <= t < ext.len() - 1 implies tick_rel(
        #[trigger] ext[t],
        input_at(inputs, t),
        ext[t + 1],
    ) by {
        if t < trace.len() - 1 {
            assert(ext[t] == trace[t]);
            assert(ext[t + 1] == trace[t + 1]);
        }
    }
    assert forall|t: int|
        0 <= t < ext.len() - 1 && running_until_last(trace) && trace.last().status
            == Status::Running implies (#[trigger] ext[t]).status == Status::Running by {
        assert(ext[t] == trace[t]);
    }
}

/// A run still going after the whole budget is rejected.
proof fn lemma_budget_spent(r: Replay, max_ticks: u32, trace: Seq<GameView>)
    requires
        valid_trace(r.config_spec(), r.inputs@, trace),
        running_until_last(trace),
        trace.len() == max_ticks + 1,
        trace.last().status == Status::Running,
    ensures
        rejected_run(r, max_ticks),
{
}

/// One tick of the verification loop extends the run by the new state and
/// keeps its counters in step.
proof fn lemma_verify_step(
    config: Config,
    inputs: Seq<(u32, Direction)>,
    trace: Seq<GameView>,
    input: Option<Direction>,
    next: GameView,
    tick: int,
)
    requires
        valid_trace(config, inputs, trace),
        running_until_last(trace),
        trace.last().status == Status::Running,
        trace.len() == tick + 1,
        input_at(inputs, tick) == input,
        tick_rel(trace.last(), input, next),
        trace.last().ticks <= tick,
    ensures
        valid_trace(config, inputs, trace.push(next)),
        running_until_last(trace.push(next)),
        trace.push(next).last() == next,
        trace.push(next).len() == tick + 2,
        next.ticks <= tick + 1,
{
    lemma_trace_extend(config, inputs, trace, input, next);
    crate::game::lemma_tick_counts(trace.last(), input, next);
}

/// The input consumed by the verification loop at tick `t` is the one the
/// schedule holds for that tick.
proof fn lemma_input_at(inputs: Seq<(u32, Direction)>, p: int, t: int, input: Option<Direction>)
    requires
        strictly_increasing(inputs),
        0 <= p <= inputs.len(),
        input matches Some(d) ==> p >= 1 && inputs[p - 1].0 == t && inputs[p - 1].1 == d,
        input matches Some(d) ==> forall|i: int| 0 <= i < p - 1 ==> inputs[i].0 < t,
        input is None ==> forall|i: int| 0 <= i < p ==> inputs[i].0 < t,
        input is None ==> (p < inputs.len() ==> inputs[p].0 > t),
    ensures
        input_at(inputs, t) == input,
{
    match input {
        Some(d) => {
            assert(inputs[p - 1].0 == t);
            let i = choose|i: int| 0 <= i < inputs.len() && #[trigger] inputs[i].0 == t;
            if i < p - 1 {
            } else if i > p - 1 {
                assert(inputs[p - 1].0 < inputs[i].0);
            }
        },
        None => {
            if exists|i: int| 0 <= i < inputs.len() && #[trigger] inputs[i].0 == t {
                let i = choose|i: int| 0 <= i < inputs.len() && #[trigger] inputs[i].0 == t;
                if i > p {
                    assert(inputs[p].0 < inputs[i].0);
                }
            }
        },
    }
}


/// Two runs of one configuration on one input list agree state by state
/// as far as both go.
pub proof fn lemma_traces_agree(
    config: Config,
    inputs: Seq<(u32, Direction)>,
    t1: Seq<GameView>,
    t2: Seq<GameView>,
    k: int,
)
    requires
        valid_trace(config, inputs, t1),
        valid_trace(config, inputs, t2),
        0 <= k < t1.len(),
        k < t2.len(),
    ensures
        t1[k] == t2[k],
    decreases k,
{
    if k == 0 {
        crate::game::lemma_initial_deterministic(config, t1[0], t2[0]);
    } else {
        lemma_traces_agree(config, inputs, t1, t2, k - 1);
        assert(tick_rel(t1[k - 1], input_at(inputs, k - 1), t1[k]));
        assert(tick_rel(t2[k - 1], input_at(inputs, k - 1), t2[k]));
        crate::game::lemma_tick_deterministic(t1[k - 1], input_at(inputs, k - 1), t1[k], t2[k]);
    }
}

/// A run of a configuration on an input list is unique for its length: the
/// seed and the inputs determine every state, food included.
pub proof fn lemma_trace_unique(config: Config, inputs: Seq<(u32, Direction)>, t1: Seq<GameView>, t2: Seq<GameView>)
    requires
        valid_trace(config, inputs, t1),
        valid_trace(config, inputs, t2),
        t1.len() == t2.len(),
    ensures
        t1 == t2,
{
    assert forall|k: int| 0 <= k < t1.len() implies t1[k] == t2[k] by {
        lemma_traces_agree(config, inputs, t1, t2, k);
    }
    assert(t1 =~= t2);
}

/// Two runs that both go on until they stop end at the same tick.
proof fn lemma_stopping_runs_same_length(
    config: Config,
    inputs: Seq<(u32, Direction)>,
    t1: Seq<GameView>,
    t2: Seq<GameView>,
)
    requires
        valid_trace(config, inputs, t1),
        valid_trace(config, inputs, t2),
        running_until_last(t1),
        t1.last().status != Status::Running,
        running_until_last(t2),
    ensures
        t2.len() <= t1.len(),
        t2.len() == t1.len() ==> t1 == t2,
{
    if t2.len() > t1.len() {
        lemma_traces_agree(config, inputs, t1, t2, t1.len() - 1);
        assert(t2[t1.len() - 1].status == Status::Running);
    }
    if t2.len() == t1.len() {
        lemma_trace_unique(config, inputs, t1, t2);
    }
}

/// A replay has one outcome: whatever budget it is verified with, a
/// reported run is the same run.
pub proof fn lemma_outcome_unique(r: Replay, m1: u32, m2: u32, v1: VerifiedRun, v2: VerifiedRun)
    requires
        finished_run(r, m1, v1),
        finished_run(r, m2, v2),
    ensures
        v1 == v2,
{
    let t1 = choose|trace: Seq<GameView>|
        #![trigger valid_trace(r.config_spec(), r.inputs@, trace)]
        {
            &&& valid_trace(r.config_spec(), r.inputs@, trace)
            &&& trace.len() == v1.ticks + 1
            &&& running_until_last(trace)
            &&& trace.last().status != Status::Running
            &&& v1.status == trace.last().status
            &&& v1.score == trace.last().score
            &&& v1.ticks <= m1
            &&& forall|i: int| 0 <= i < r.inputs@.len() ==> (#[trigger] r.inputs@[i]).0 < v1.ticks
        };
    let t2 = choose|trace: Seq<GameView>|
        #![trigger valid_trace(r.config_spec(), r.inputs@, trace)]
        {
            &&& valid_trace(r.config_spec(), r.inputs@, trace)
            &&& trace.len() == v2.ticks + 1
            &&& running_until_last(trace)
            &&& trace.last().status != Status::Running
            &&& v2.status == trace.last().status
            &&& v2.score == trace.last().score
            &&& v2.ticks <= m2
            &&& forall|i: int| 0 <= i < r.inputs@.len() ==> (#[trigger] r.inputs@[i]).0 < v2.ticks
        };
    lemma_stopping_runs_same_length(r.config_spec(), r.inputs@, t1, t2);
    lemma_stopping_runs_same_length(r.config_spec(), r.inputs@, t2, t1);
}

/// A run that stops by itself within `m2` ticks, with every input before
/// its end, is not a rejected run under the budget `m2`.
proof fn lemma_stopping_trace_not_rejected(r: Replay, t1: Seq<GameView>, m2: u32)
    requires
        valid_trace(r.config_spec(), r.inputs@, t1),
        running_until_last(t1),
        t1.last().status != Status::Running,
        t1.len() <= m2 + 1,
        forall|i: int| 0 <= i < r.inputs@.len() ==> (#[trigger] r.inputs@[i]).0 < t1.len() - 1,
    ensures
        !rejected_run(r, m2),
{
    if rejected_run(r, m2) {
        let t2 = choose|trace: Seq<GameView>|
            #![trigger valid_trace(r.config_spec(), r.inputs@, trace)]
            {
                &&& valid_trace(r.config_spec(), r.inputs@, trace)
                &&& running_until_last(trace)
                &&& {
                    ||| trace.len() == m2 + 1 && trace.last().status == Status::Running
                    ||| trace.last().status != Status::Running && exists|i: int|
                        0 <= i < r.inputs@.len() && (#[trigger] r.inputs@[i]).0 >= trace.len() - 1
                }
            };
        lemma_stopping_runs_same_length(r.config_spec(), r.inputs@, t1, t2);
        if t2.len() < t1.len() {
            lemma_traces_agree(r.config_spec(), r.inputs@, t1, t2, t2.len() - 1);
            assert(t1[t2.len() - 1].status == Status::Running);
        } else {
            assert(t1 == t2);
            if t2.last().status != Status::Running {
                let i = choose|i: int|
                    0 <= i < r.inputs@.len() && (#[trigger] r.inputs@[i]).0 >= t2.len() - 1;
                assert(r.inputs@[i].0 < t1.len() - 1);
            }
        }
    }
}

/// A replay whose run ends within a budget is never rejected with a budget
/// at least that long.
pub proof fn lemma_finished_not_rejected(r: Replay, m1: u32, v: VerifiedRun, m2: u32)
    requires
        finished_run(r, m1, v),
        v.ticks <= m2,
    ensures
        !rejected_run(r, m2),
{
    let t1 = choose|trace: Seq<GameView>|
        #![trigger valid_trace(r.config_spec(), r.inputs@, trace)]
        {
            &&& valid_trace(r.config_spec(), r.inputs@, trace)
            &&& trace.len() == v.ticks + 1
            &&& running_until_last(trace)
            &&& trace.last().status != Status::Running
            &&& v.status == trace.last().status
            &&& v.score == trace.last().score
            &&& v.ticks <= m1
            &&& forall|i: int| 0 <= i < r.inputs@.len() ==> (#[trigger] r.inputs@[i]).0 < v.ticks
        };
    lemma_stopping_trace_not_rejected(r, t1, m2);
}

/// Recording the inputs `xs` tick by tick gives a strictly increasing list
/// that schedules exactly `xs[t]` for each tick `t` and nothing later.
pub proof fn lemma_recorded_schedule(xs: Seq<Option<Direction>>)
    requires
        xs.len() <= u32::MAX,
    ensures
        strictly_increasing(recorded(xs)),
        forall|i: int| 0 <= i < recorded(xs).len() ==> (#[trigger] recorded(xs)[i]).0 < xs.len(),
        forall|t: int| 0 <= t < xs.len() ==> input_at(recorded(xs), t) == xs[t],
        forall|t: int| t >= xs.len() ==> #[trigger] input_at(recorded(xs), t) is None,
    decreases xs.len(),
{
    if xs.len() > 0 {
        let ys = xs.drop_last();
        lemma_recorded_schedule(ys);
        let prev = recorded(ys);
        assert forall|t: int| 0 <= t < ys.len() implies #[trigger] xs[t] == ys[t] by {}
        match xs.last() {
            Some(d) => {
                let e = ((xs.len() - 1) as u32, d);
                assert(e.0 == ys.len());
                assert forall|t: int| 0 <= t < xs.len() implies input_at(recorded(xs), t) == xs[t] by {
                    lemma_input_at_extend(prev, e, t);
                }
                assert forall|t: int| t >= xs.len() implies #[trigger] input_at(recorded(xs), t) is None by {
                    let r = recorded(xs);
                    if exists|i: int| 0 <= i < r.len() && #[trigger] r[i].0 == t {
                        let i = choose|i: int| 0 <= i < r.len() && #[trigger] r[i].0 == t;
                        if i < prev.len() {
                            assert(r[i] == prev[i]);
                        }
                    }
                }
                assert forall|i: int| 0 <= i < recorded(xs).len() implies (#[trigger] recorded(xs)[i]).0
                    < xs.len() by {
                    if i < prev.len() {
                        assert(recorded(xs)[i] == prev[i]);
                    }
                }
                assert forall|i: int, j: int| 0 <= i < j < recorded(xs).len() implies recorded(xs)[i].0
                    < recorded(xs)[j].0 by {
                    assert(recorded(xs)[i] == prev[i]);
                    if j < prev.len() {
                        assert(recorded(xs)[j] == prev[j]);
                    }
                }
            },
            None => {
                assert(recorded(xs) == prev);
                assert(input_at(prev, ys.len() as int) is None);
            },
        }
    }
}

/// A live run and its recording agree: the replay of the recorded inputs
/// is a run of the same states.
pub proof fn lemma_live_run_is_replayed(config: Config, xs: Seq<Option<Direction>>, trace: Seq<GameView>)
    requires
        live_run(config, xs, trace),
        xs.len() <= u32::MAX,
    ensures
        valid_trace(config, recorded(xs), trace),
        strictly_increasing(recorded(xs)),
{
    lemma_recorded_schedule(xs);
    assert forall|t: int| 0 <= t < trace.len() - 1 implies tick_rel(
        #[trigger] trace[t],
        input_at(recorded(xs), t),
        trace[t + 1],
    ) by {
        assert(tick_rel(trace[t], xs[t], trace[t + 1]));
    }
}

/// Verifying the replay of a live run that ended within the budget reports
/// exactly that run: its score, its number of ticks and how it ended.
pub proof fn lemma_verify_reproduces_live_run(
    r: Replay,
    max_ticks: u32,
    xs: Seq<Option<Direction>>,
    trace: Seq<GameView>,
    res: Option<VerifiedRun>,
)
    requires
        hosts_snake(r.width as int, r.height as int),
        live_run(r.config_spec(), xs, trace),
        r.inputs@ == recorded(xs),
        running_until_last(trace),
        trace.last().status != Status::Running,
        xs.len() <= max_ticks,
        verify_result(r, max_ticks, res),
    ensures
        res == Some(
            VerifiedRun {
                score: trace.last().score as u32,
                ticks: xs.len() as u32,
                status: trace.last().status,
            },
        ),
{
    lemma_live_run_is_replayed(r.config_spec(), xs, trace);
    lemma_recorded_schedule(xs);
    lemma_stopping_trace_not_rejected(r, trace, max_ticks);
    let run = res->Some_0;
    let t1 = choose|t: Seq<GameView>|
        #![trigger valid_trace(r.config_spec(), r.inputs@, t)]
        {
            &&& valid_trace(r.config_spec(), r.inputs@, t)
            &&& t.len() == run.ticks + 1
            &&& running_until_last(t)
            &&& t.last().status != Status::Running
            &&& run.status == t.last().status
            &&& run.score == t.last().score
            &&& run.ticks <= max_ticks
            &&& forall|i: int| 0 <= i < r.inputs@.len() ==> (#[trigger] r.inputs@[i]).0 < run.ticks
        };
    lemma_stopping_runs_same_length(r.config_spec(), r.inputs@, trace, t1);
    lemma_stopping_runs_same_length(r.config_spec(), r.inputs@, t1, trace);
}

} // verus!
