//! The game client around a session, without the drawing: the menu's
//! settings, starting a game or the daily challenge, and the bookkeeping
//! once a game ends (statistics, the local highscore table and the queue of
//! runs for the global leaderboard). The window toolkit shows what this
//! state decides and hands back the player's choices.
use vstd::prelude::*;
use vstd::string::StrSliceExecFns;

use crate::api::ScoreSubmission;
use crate::board::BoundaryMode;
use crate::client::{parse_input_script, script_directions, local_daily_seed, PendingSubmission, SessionEvent};
use crate::coords::Direction;
use crate::daily::daily_seed;
use crate::game::{initial_rel, playable, Config, Status};
use crate::highscores::{inserted, mode_key, mode_key_spec, qualifies_spec, today_iso, Entry, Highscores};
use crate::online::Online;
use crate::replay::Replay;
use crate::seed::random_seed;
use crate::session::{GameSession, SessionView};
use crate::settings::{dimensions_of, Settings, SizePreset, StrategyChoice};
use crate::stats::Stats;
use crate::strategy::hamilton::serpentine_compatible;
use crate::text::{push_str, trim_str, trimmed};

verus! {

/// What the menu asks for in a frame.
#[derive(Debug, Clone, Copy, PartialEq, Eq, Structural)]
pub enum MenuAction {
    Stay,
    Start,
    Daily,
}

/// The finished run kept for a possible global submission.
pub struct RunInfo {
    pub replay: Replay,
    /// Leaderboard key: a preset mode key, or `"daily"`.
    pub mode: String,
    /// Whether it goes to the daily-challenge endpoint.
    pub daily: bool,
    /// A preset board (or a daily run on the server's seed), played without
    /// the autopilot, with a positive score.
    pub eligible_global: bool,
}

/// Menu, or a running game.
pub enum Screen {
    Menu,
    Game(Box<GameSession>),
}

/// What the end of a game asks the window to show: the score, whether the
/// name dialog for a new highscore opens, and the table it is filed under.
pub struct RunEnd {
    pub score: u32,
    pub dialog_open: bool,
    pub key: String,
}

/// The client state: menu settings, the current screen, the local tables
/// and statistics, and the connection to the highscore server.
pub struct App {
    settings: Settings,
    screen: Screen,
    /// A seed fixed from outside; `None` gives every game a fresh seed.
    seed_override: Option<u64>,
    /// Scripted inputs applied one per tick in every new game.
    input_script: Vec<Direction>,
    highscores: Highscores,
    player_name: String,
    /// Whether the highscore of the current game-over screen was recorded
    /// (or did not qualify).
    highscore_done: bool,
    stats: Stats,
    /// Whether the current game's end was counted in the statistics.
    stats_recorded: bool,
    online: Online,
    last_run: Option<RunInfo>,
    /// Whether the running game is the daily challenge.
    daily_run: bool,
    /// Set by the menu to launch the daily challenge on the next restart.
    start_daily_next: bool,
}

pub ghost struct RunView {
    pub config: Config,
    pub inputs: Seq<(u32, Direction)>,
    pub mode: Seq<char>,
    pub daily: bool,
    pub eligible_global: bool,
}

pub ghost struct AppView {
    pub settings: Settings,
    pub session: Option<SessionView>,
    pub seed_override: Option<u64>,
    pub input_script: Seq<Direction>,
    pub highscores: Highscores,
    pub player_name: Seq<char>,
    pub highscore_done: bool,
    pub stats: Stats,
    pub stats_recorded: bool,
    pub online: Online,
    pub last_run: Option<RunView>,
    pub daily_run: bool,
    pub start_daily_next: bool,
}

impl View for App {
    type V = AppView;

    closed spec fn view(&self) -> AppView {
        AppView {
            settings: self.settings,
            session: match self.screen {
                Screen::Menu => None,
                Screen::Game(s) => Some((*s)@),
            },
            seed_override: self.seed_override,
            input_script: self.input_script@,
            highscores: self.highscores,
            player_name: self.player_name@,
            highscore_done: self.highscore_done,
            stats: self.stats,
            stats_recorded: self.stats_recorded,
            online: self.online,
            last_run: match self.last_run {
                Some(r) => Some(
                    RunView {
                        config: r.replay.config_spec(),
                        inputs: r.replay.inputs@,
                        mode: r.mode@,
                        daily: r.daily,
                        eligible_global: r.eligible_global,
                    },
                ),
                None => None,
            },
            daily_run: self.daily_run,
            start_daily_next: self.start_daily_next,
        }
    }
}

/// A game can be started on these settings' board.
pub open spec fn startable(s: Settings) -> bool {
    &&& playable(dimensions_of(s).0 as int, dimensions_of(s).1 as int)
    &&& dimensions_of(s).0 <= 0x1000_0000
    &&& dimensions_of(s).1 <= 0x1000_0000
}

/// The settings of the daily challenge: the medium board with walls.
pub open spec fn daily_settings(s: Settings) -> Settings {
    Settings { boundary: BoundaryMode::Walls, preset: SizePreset::Medium, ..s }
}

/// `s` is a new session on `settings` and `seed`, fed `script`.
pub open spec fn fresh_session(s: SessionView, settings: Settings, seed: u64, script: Seq<Direction>) -> bool {
    &&& s.config == (Config {
        width: dimensions_of(settings).0,
        height: dimensions_of(settings).1,
        boundary: settings.boundary,
        seed,
    })
    &&& initial_rel(s.config, s.game)
    &&& s.inputs.len() == 0
    &&& s.recorded_ticks == 0
    &&& s.speed == settings.speed
    &&& s.slowest_speed == settings.speed
    &&& s.script == script
    &&& s.strategy == settings.strategy
    &&& !s.autopilot_used
    &&& !s.steered_by_hand
}

/// The state right after a game was started.
pub open spec fn started(old: AppView, new: AppView, settings: Settings, seed: u64, daily: bool) -> bool {
    &&& new.session matches Some(s) && fresh_session(s, settings, seed, old.input_script)
    &&& new == AppView {
        session: new.session,
        highscore_done: false,
        stats_recorded: false,
        last_run: None,
        daily_run: daily,
        ..old
    }
}

/// The state with the menu's daily request consumed.
pub open spec fn daily_flag_cleared(v: AppView) -> AppView {
    AppView { start_daily_next: false, ..v }
}

/// The game is over (lost or won).
pub open spec fn finished(s: SessionView) -> bool {
    s.game.status != Status::Running
}

/// The score of a session's game.
pub open spec fn score_of(s: SessionView) -> u32 {
    s.game.score as u32
}

/// The snake's final length as counted in the statistics.
pub open spec fn final_length(s: SessionView) -> u32 {
    s.game.snake.len() as u32
}

/// The statistics after counting one more game.
pub open spec fn stats_after(st: Stats, score: u32, length: u32) -> Stats {
    Stats {
        games: (st.games + 1) as u64,
        total_final_length: (st.total_final_length + length) as u64,
        best_score: if score > st.best_score {
            score
        } else {
            st.best_score
        },
        best_length: if length > st.best_length {
            length
        } else {
            st.best_length
        },
    }
}

/// This frame counts the game in the statistics: it just ended, was not
/// counted yet, and the autopilot never steered it.
pub open spec fn counts_now(v: AppView) -> bool {
    v.session matches Some(s) && finished(s) && !v.stats_recorded && !s.autopilot_used
}

/// The table a game is filed under: the day's daily table, or the mode key
/// of the settings with the slowest speed played.
pub open spec fn filed_key(v: AppView, s: SessionView, today: Seq<char>) -> Seq<char> {
    if v.daily_run {
        "daily-"@ + today
    } else {
        mode_key_spec(Settings { speed: s.slowest_speed, ..v.settings })
    }
}

/// Whether a finished run may go to the global leaderboard.
pub open spec fn run_eligible(v: AppView, s: SessionView) -> bool {
    &&& !s.autopilot_used
    &&& score_of(s) > 0
    &&& if v.daily_run {
        v.online.challenge_view() matches Some(c) && c.seed == s.config.seed
    } else {
        v.settings.preset != SizePreset::Custom
    }
}

/// Whether the name dialog for a new highscore opens.
pub open spec fn dialog_opens(v: AppView, s: SessionView, key: Seq<char>) -> bool {
    &&& finished(s)
    &&& !v.highscore_done
    &&& !s.autopilot_used
    &&& qualifies_spec(v.highscores.table_of(key), score_of(s))
}

/// The name a highscore is saved under: the entered name without
/// surrounding whitespace, or "Anonym" when that leaves nothing.
pub open spec fn player_label(name: Seq<char>) -> Seq<char> {
    if trimmed(name).len() == 0 {
        "Anonym"@
    } else {
        trimmed(name)
    }
}

/// The pending submission made from a saved run.
pub open spec fn submission_of(p: PendingSubmission, id: u64, r: RunView, name: Seq<char>, score: u32) -> bool {
    &&& p.id == id
    &&& p.mode@ == r.mode
    &&& p.daily == r.daily
    &&& p.submission.name@ == name
    &&& p.submission.claimed_score == score
    &&& p.submission.replay.config_spec() == r.config
    &&& p.submission.replay.inputs@ == r.inputs
    &&& p.submission.signature is None
}

/// The saved highscore also goes to the global leaderboard queue.
pub open spec fn submits(v: AppView) -> bool {
    v.last_run matches Some(r) && r.eligible_global
}

/// A copy of a replay.
fn copy_replay(r: &Replay) -> (c: Replay)
    ensures
        c.config_spec() == r.config_spec(),
        c.inputs@ == r.inputs@,
{
    let mut inputs: Vec<(u32, Direction)> = Vec::new();
    let mut i: usize = 0;
    while i < r.inputs.len()
        invariant
            0 <= i <= r.inputs@.len(),
            inputs@ == r.inputs@.subrange(0, i as int),
        decreases r.inputs@.len() - i,
    {
        inputs.push(r.inputs[i]);
        i += 1;
        proof {
            assert(inputs@ =~= r.inputs@.subrange(0, i as int));
        }
    }
    proof {
        assert(inputs@ =~= r.inputs@);
    }
    Replay { width: r.width, height: r.height, boundary: r.boundary, seed: r.seed, inputs }
}

impl App {
    /// The local tables are consistent, the server state is, and so is a
    /// running session.
    pub closed spec fn wf(&self) -> bool {
        &&& self.highscores.wf()
        &&& self.online.wf()
        &&& self.screen matches Screen::Game(s) ==> s.wf()
    }

    /// The client as loaded: saved settings, tables, name, statistics and
    /// pending runs, the server's base address (if any), a fixed seed (if
    /// any) and the scripted input text. It opens on the menu.
    pub fn new(
        settings: Settings,
        highscores: Highscores,
        player_name: String,
        stats: Stats,
        pending: Vec<PendingSubmission>,
        base: Option<String>,
        seed_override: Option<u64>,
        script: &str,
    ) -> (app: App)
        requires
            highscores.wf(),
            forall|i: int| 0 <= i < pending@.len() ==> (#[trigger] pending@[i]).id < u64::MAX,
        ensures
            app.wf(),
            app@.settings == settings,
            app@.session is None,
            app@.seed_override == seed_override,
            app@.input_script == script_directions(script@),
            app@.highscores == highscores,
            app@.player_name == player_name@,
            !app@.highscore_done,
            app@.stats == stats,
            !app@.stats_recorded,
            app@.online.queue() == pending@,
            app@.online.base_view() == (match base {
                Some(b) => Some(b@),
                None => None::<Seq<char>>,
            }),
            app@.online.challenge_view() is None,
            app@.last_run is None,
            !app@.daily_run,
            !app@.start_daily_next,
    {
        let input_script = parse_input_script(script);
        App {
            settings,
            screen: Screen::Menu,
            seed_override,
            input_script,
            highscores,
            player_name,
            highscore_done: false,
            stats,
            stats_recorded: false,
            online: Online::new(base, pending),
            last_run: None,
            daily_run: false,
            start_daily_next: false,
        }
    }

    pub fn settings(&self) -> (s: &Settings)
        ensures
            *s == self@.settings,
    {
        &self.settings
    }

    pub fn highscores(&self) -> (h: &Highscores)
        ensures
            *h == self@.highscores,
    {
        &self.highscores
    }

    pub fn stats(&self) -> (s: Stats)
        ensures
            s == self@.stats,
    {
        self.stats
    }

    pub fn online(&self) -> (o: &Online)
        ensures
            *o == self@.online,
    {
        &self.online
    }

    pub fn set_player_name(&mut self, name: String)
        ensures
            final(self)@ == (AppView { player_name: name@, ..old(self)@ }),
            final(self).wf() == old(self).wf(),
    {
        self.player_name = name;
    }

    /// Settings edited in the menu. A size that rules out the chosen
    /// autopilot (Hamilton on an odd height) falls back to manual play.
    pub fn update_settings(&mut self, settings: Settings)
        requires
            serpentine_compatible(dimensions_of(settings).0 as int, dimensions_of(settings).1 as int)
                ==> dimensions_of(settings).0 * dimensions_of(settings).1 <= i32::MAX,
        ensures
            final(self).wf() == old(self).wf(),
            final(self)@ == (AppView {
                settings: if settings.strategy == StrategyChoice::Hamilton && !serpentine_compatible(
                    dimensions_of(settings).0 as int,
                    dimensions_of(settings).1 as int,
                ) {
                    Settings { strategy: StrategyChoice::Human, ..settings }
                } else {
                    settings
                },
                ..old(self)@
            }),
    {
        let (width, height) = settings.dimensions();
        let mut s = settings;
        if !s.strategy.compatible_with(width, height) {
            s.strategy = StrategyChoice::Human;
        }
        self.settings = s;
    }

    /// The seed for a new game: the fixed one, or a fresh one.
    fn next_seed(&self) -> (seed: u64)
        ensures
            self.seed_override matches Some(s) ==> seed == s,
    {
        match self.seed_override {
            Some(s) => s,
            None => random_seed(),
        }
    }

    fn start_with(&mut self, settings: &Settings, seed: u64, daily: bool)
        requires
            old(self).wf(),
            startable(*settings),
        ensures
            final(self).wf(),
            started(old(self)@, final(self)@, *settings, seed, daily),
    {
        self.highscore_done = false;
        self.stats_recorded = false;
        self.last_run = None;
        self.daily_run = daily;
        let session = GameSession::new(settings, seed, self.input_script.as_slice());
        self.screen = Screen::Game(Box::new(session));
    }

    /// A new game on the menu settings, with the fixed seed if there is one.
    pub fn start_game(&mut self)
        requires
            old(self).wf(),
            startable(old(self)@.settings),
        ensures
            final(self).wf(),
            exists|seed: u64| #[trigger] started(old(self)@, final(self)@, old(self)@.settings, seed, false)
                && (old(self)@.seed_override matches Some(s) ==> seed == s),
    {
        let seed = self.next_seed();
        let settings = Settings { ..self.settings };
        self.start_with(&settings, seed, false);
    }

    /// Today's daily challenge: the medium board with walls, on the
    /// server's seed of the day, or on a date-based local seed when there
    /// is none.
    pub fn start_daily(&mut self)
        requires
            old(self).wf(),
        ensures
            final(self).wf(),
            exists|seed: u64|
                #[trigger] started(old(self)@, final(self)@, daily_settings(old(self)@.settings), seed, true)
                    && match old(self)@.online.challenge_view() {
                    Some(c) => seed == c.seed,
                    None => exists|days: i64|
                        0 <= days <= 213_503_982_334_601 && seed == #[trigger] daily_seed(days, 0),
                },
    {
        let seed = match self.online.challenge() {
            Some(c) => c.seed,
            None => local_daily_seed(),
        };
        let settings = Settings {
            boundary: BoundaryMode::Walls,
            preset: SizePreset::Medium,
            ..self.settings
        };
        self.start_with(&settings, seed, true);
    }

    /// The menu's choice: Start begins a game on the menu settings, Daily
    /// the daily challenge; either comes back as a restart.
    pub fn menu_action(&mut self, action: MenuAction) -> (ev: SessionEvent)
        ensures
            final(self).wf() == old(self).wf(),
            ev == match action {
                MenuAction::Stay => SessionEvent::Continue,
                _ => SessionEvent::Restart,
            },
            final(self)@ == (AppView {
                start_daily_next: match action {
                    MenuAction::Stay => old(self)@.start_daily_next,
                    MenuAction::Start => false,
                    MenuAction::Daily => true,
                },
                ..old(self)@
            }),
    {
        match action {
            MenuAction::Stay => SessionEvent::Continue,
            MenuAction::Start => {
                self.start_daily_next = false;
                SessionEvent::Restart
            },
            MenuAction::Daily => {
                self.start_daily_next = true;
                SessionEvent::Restart
            },
        }
    }

    /// Act on what a frame asked for: a restart starts the next game (the
    /// daily challenge if the menu chose it, once), leaving goes back to
    /// the menu.
    pub fn on_event(&mut self, ev: SessionEvent)
        requires
            old(self).wf(),
            ev == SessionEvent::Restart && !old(self)@.start_daily_next ==> startable(
                old(self)@.settings,
            ),
        ensures
            final(self).wf(),
            ev == SessionEvent::Continue ==> final(self)@ == old(self)@,
            ev == SessionEvent::BackToMenu ==> final(self)@ == (AppView {
                session: None,
                ..old(self)@
            }),
            ev == SessionEvent::Restart && old(self)@.start_daily_next ==> exists|seed: u64|
                #[trigger] started(
                    daily_flag_cleared(old(self)@),
                    final(self)@,
                    daily_settings(old(self)@.settings),
                    seed,
                    true,
                ),
            ev == SessionEvent::Restart && !old(self)@.start_daily_next ==> exists|seed: u64|
                #[trigger] started(old(self)@, final(self)@, old(self)@.settings, seed, false)
                    && (old(self)@.seed_override matches Some(s) ==> seed == s),
    {
        match ev {
            SessionEvent::Continue => {},
            SessionEvent::Restart => {
                if self.start_daily_next {
                    self.start_daily_next = false;
                    self.start_daily();
                } else {
                    self.start_game();
                }
            },
            SessionEvent::BackToMenu => {
                self.screen = Screen::Menu;
            },
        }
    }

    /// Hand the running session to the caller (the app is on the menu
    /// until it is given back).
    pub fn take_session(&mut self) -> (s: Option<Box<GameSession>>)
        requires
            old(self).wf(),
        ensures
            final(self).wf(),
            final(self)@ == (AppView { session: None, ..old(self)@ }),
            s matches Some(g) ==> g.wf() && old(self)@.session == Some(g@),
            s is None ==> old(self)@.session is None,
    {
        let mut screen = Screen::Menu;
        std::mem::swap(&mut screen, &mut self.screen);
        match screen {
            Screen::Menu => None,
            Screen::Game(g) => Some(g),
        }
    }

    /// Put a session back on the screen.
    pub fn resume_session(&mut self, s: Box<GameSession>)
        requires
            old(self).wf(),
            s.wf(),
        ensures
            final(self).wf(),
            final(self)@ == (AppView { session: Some(s@), ..old(self)@ }),
    {
        self.screen = Screen::Game(s);
    }

    /// The bookkeeping of a game frame, dated by the clock.
    pub fn game_frame(&mut self) -> (r: Option<RunEnd>)
        requires
            old(self).wf(),
            counts_now(old(self)@) ==> old(self)@.stats.games < u64::MAX,
            counts_now(old(self)@) ==> old(self)@.stats.total_final_length + final_length(
                old(self)@.session->0,
            ) <= u64::MAX,
        ensures
            final(self).wf(),
            old(self)@.session is None ==> r is None && final(self)@ == old(self)@,
            old(self)@.session matches Some(s) ==> exists|today: Seq<char>| #[trigger]
                frame_done(old(self)@, s, today, final(self)@, r),
    {
        match &self.screen {
            Screen::Menu => return None,
            Screen::Game(_) => {},
        }
        let today = today_iso();
        let r = self.game_frame_at(today.as_str());
        proof {
            let s = old(self)@.session->0;
            assert(frame_done(old(self)@, s, today@, self@, r));
        }
        r
    }

    /// The bookkeeping of a game frame on the day `today` (`YYYY-MM-DD`).
    /// Once the game is over: the game is counted in the statistics (once,
    /// and only without the autopilot), the run is kept for the global
    /// leaderboard (once), and the table it is filed under, with whether
    /// the name dialog opens, is handed back; without the dialog the
    /// highscore is settled.
    pub fn game_frame_at(&mut self, today: &str) -> (r: Option<RunEnd>)
        requires
            old(self).wf(),
            counts_now(old(self)@) ==> old(self)@.stats.games < u64::MAX,
            counts_now(old(self)@) ==> old(self)@.stats.total_final_length + final_length(
                old(self)@.session->0,
            ) <= u64::MAX,
        ensures
            final(self).wf(),
            old(self)@.session is None ==> r is None && final(self)@ == old(self)@,
            old(self)@.session matches Some(s) ==> frame_done(old(self)@, s, today@, final(self)@, r),
    {
        let ghost v = self@;
        let (finished, score, length, autopilot_used, slowest, seed) = match &self.screen {
            Screen::Menu => {
                return None;
            },
            Screen::Game(session) => {
                let state = session.game_state();
                (
                    state.status() != Status::Running,
                    state.score(),
                    state.snake_len() as u32,
                    session.autopilot_used(),
                    session.slowest_speed(),
                    session.seed(),
                )
            },
        };
        let ghost s = v.session->0;
        if finished && !self.stats_recorded {
            if !autopilot_used {
                self.stats.record(score, length);
            }
            self.stats_recorded = true;
        }
        let key = if self.daily_run {
            let mut k = String::new();
            push_str(&mut k, "daily-");
            push_str(&mut k, today);
            proof {
                assert(k@ =~= "daily-"@ + today@);
            }
            k
        } else {
            let filed = Settings { speed: slowest, ..self.settings };
            mode_key(&filed)
        };
        let dialog_open = finished && !self.highscore_done && !autopilot_used
            && self.highscores.qualifies(key.as_str(), score);
        if finished && self.last_run.is_none() {
            let replay = match &self.screen {
                Screen::Game(session) => session.replay(),
                Screen::Menu => {
                    return None;
                },
            };
            let on_server_seed = match self.online.challenge() {
                Some(c) => c.seed == seed,
                None => false,
            };
            let eligible = !autopilot_used && score > 0 && if self.daily_run {
                on_server_seed
            } else {
                self.settings.preset != SizePreset::Custom
            };
            let mode = if self.daily_run {
                "daily".to_owned()
            } else {
                key.clone()
            };
            self.last_run = Some(RunInfo { replay, mode, daily: self.daily_run, eligible_global: eligible });
        }
        if finished && !dialog_open {
            self.highscore_done = true;
        }
        if finished {
            Some(RunEnd { score, dialog_open, key })
        } else {
            None
        }
    }

    /// Save the highscore of a finished game under the entered name (on the
    /// day `today`), and queue the run for the global leaderboard if it is
    /// eligible. Returns the queued run's id when it is to be sent at once.
    pub fn save_name_at(&mut self, key: &str, score: u32, today: &str) -> (send: Option<u64>)
        requires
            old(self).wf(),
            old(self)@.last_run matches Some(r) && r.eligible_global ==> old(
                self,
            )@.online.next_id_view() < u64::MAX,
        ensures
            final(self).wf(),
            final(self)@ == (AppView {
                highscores: final(self)@.highscores,
                online: final(self)@.online,
                highscore_done: true,
                ..old(self)@
            }),
            exists|e: Entry|
                e.name@ == player_label(old(self)@.player_name) && e.score == score && e.date@ == today@
                    && final(self)@.highscores.table_of(key@) == #[trigger] inserted(
                    old(self)@.highscores.table_of(key@),
                    e,
                ),
            forall|k: Seq<char>|
                k != key@ ==> #[trigger] final(self)@.highscores.table_of(k) == old(
                    self,
                )@.highscores.table_of(k),
            submits(old(self)@) ==> {
                    let r = old(self)@.last_run->0;
                    &&& send == if old(self)@.online.base_view() is Some {
                        Some(old(self)@.online.next_id_view())
                    } else {
                        None::<u64>
                    }
                    &&& final(self)@.online.next_id_view() == old(self)@.online.next_id_view() + 1
                    &&& final(self)@.online.base_view() == old(self)@.online.base_view()
                    &&& exists|p: PendingSubmission|
                        #[trigger] submission_of(
                            p,
                            old(self)@.online.next_id_view(),
                            r,
                            player_label(old(self)@.player_name),
                            score,
                        ) && final(self)@.online.queue() == old(self)@.online.queue().push(p)
                },
            !submits(old(self)@) ==> send is None && final(self)@.online == old(self)@.online,
    {
        let trimmed_name = trim_str(self.player_name.as_str());
        let name = if trimmed_name.unicode_len() == 0 {
            "Anonym".to_owned()
        } else {
            trimmed_name.to_owned()
        };
        let entry = Entry { name: name.clone(), score, date: today.to_owned() };
        let ghost e = entry;
        let ghost before = self@;
        self.highscores.insert(key, entry);
        assert(self@.highscores.table_of(key@) == inserted(before.highscores.table_of(key@), e));
        let job = match &self.last_run {
            Some(r) => {
                if r.eligible_global {
                    Some((r.mode.clone(), r.daily, copy_replay(&r.replay)))
                } else {
                    None
                }
            },
            None => None,
        };
        let send = match job {
            Some((mode, daily, replay)) => {
                let submission = ScoreSubmission {
                    name,
                    claimed_score: score,
                    replay,
                    signature: None,
                };
                let ghost p = PendingSubmission {
                    id: before.online.next_id_view(),
                    mode,
                    daily,
                    submission,
                };
                let sent = self.online.submit(mode, daily, submission);
                assert(submission_of(
                    p,
                    before.online.next_id_view(),
                    before.last_run->0,
                    player_label(before.player_name),
                    score,
                ));
                sent
            },
            None => None,
        };
        self.highscore_done = true;
        send
    }

    /// Save the highscore dated by the clock.
    pub fn save_name(&mut self, key: &str, score: u32) -> (send: Option<u64>)
        requires
            old(self).wf(),
            old(self)@.last_run matches Some(r) && r.eligible_global ==> old(
                self,
            )@.online.next_id_view() < u64::MAX,
        ensures
            final(self).wf(),
            final(self)@ == (AppView {
                highscores: final(self)@.highscores,
                online: final(self)@.online,
                highscore_done: true,
                ..old(self)@
            }),
            exists|e: Entry|
                e.name@ == player_label(old(self)@.player_name) && e.score == score
                    && final(self)@.highscores.table_of(key@) == #[trigger] inserted(
                    old(self)@.highscores.table_of(key@),
                    e,
                ),
    {
        let today = today_iso();
        self.save_name_at(key, score, today.as_str())
    }

    /// Close the name dialog without saving.
    pub fn discard_name(&mut self)
        ensures
            final(self).wf() == old(self).wf(),
            final(self)@ == (AppView { highscore_done: true, ..old(self)@ }),
    {
        self.highscore_done = true;
    }
}

/// The state after the bookkeeping of a frame of session `s` on day
/// `today`, and what it hands back.
pub open spec fn frame_done(v: AppView, s: SessionView, today: Seq<char>, w: AppView, r: Option<RunEnd>) -> bool {
    let key = filed_key(v, s, today);
    let open = dialog_opens(v, s, key);
    &&& w == AppView {
        stats: if counts_now(v) {
            stats_after(v.stats, score_of(s), final_length(s))
        } else {
            v.stats
        },
        stats_recorded: v.stats_recorded || finished(s),
        last_run: if finished(s) && v.last_run is None {
            Some(
                RunView {
                    config: s.config,
                    inputs: s.inputs,
                    mode: if v.daily_run {
                        "daily"@
                    } else {
                        key
                    },
                    daily: v.daily_run,
                    eligible_global: run_eligible(v, s),
                },
            )
        } else {
            v.last_run
        },
        highscore_done: v.highscore_done || (finished(s) && !open),
        ..v
    }
    &&& r is Some <==> finished(s)
    &&& r matches Some(e) ==> e.score == score_of(s) && e.dialog_open == open && e.key@ == key
}

/// A finished game is counted in the statistics and captured for the
/// leaderboard once: a further frame on the same session changes neither
/// the statistics nor the captured run, and a name dialog that did not open
/// stays closed.
pub proof fn lemma_frame_settles(
    v: AppView,
    s: SessionView,
    today: Seq<char>,
    w: AppView,
    r: Option<RunEnd>,
    later: Seq<char>,
    w2: AppView,
    r2: Option<RunEnd>,
)
    requires
        v.session == Some(s),
        finished(s),
        frame_done(v, s, today, w, r),
        frame_done(w, s, later, w2, r2),
    ensures
        w2.stats == w.stats,
        w2.last_run == w.last_run,
        w.last_run is Some,
        w2.stats_recorded,
        r2 is Some,
        (r matches Some(e) && !e.dialog_open) ==> (r2 matches Some(e2) && !e2.dialog_open),
{
}
} // verus!
