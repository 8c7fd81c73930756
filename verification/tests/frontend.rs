use hexsnake::board::BoundaryMode;
use hexsnake::client::SessionEvent;
use hexsnake::frontend::{App, MenuAction};
use hexsnake::game::Status;
use hexsnake::highscores::Highscores;
use hexsnake::session::GameSession;
use hexsnake::settings::{Settings, SizePreset, StrategyChoice};
use hexsnake::stats::Stats;

fn app_with(settings: Settings, name: &str, seed: Option<u64>) -> App {
    App::new(
        settings,
        Highscores::default(),
        name.to_string(),
        Stats::default(),
        Vec::new(),
        None,
        seed,
        "",
    )
}

fn play_out(session: &mut GameSession) {
    let mut n = 0u32;
    while session.step() && n < 200_000 {
        n += 1;
    }
}

/// Start a game through the menu and play it to its end.
fn finished_game(app: &mut App, action: MenuAction) {
    let ev = app.menu_action(action);
    assert_eq!(ev, SessionEvent::Restart);
    app.on_event(ev);
    let mut session = app.take_session().expect("a game was started");
    play_out(&mut session);
    assert_ne!(session.game_state().status(), Status::Running);
    app.resume_session(session);
}

#[test]
fn finished_game_is_counted_once() {
    let mut app = app_with(Settings::default(), "", Some(7));
    finished_game(&mut app, MenuAction::Start);
    let end = app.game_frame_at("2026-03-01").expect("the game is over");
    assert_eq!(end.key, "walls-24x18-normal");
    // An empty table takes any positive score of a hand-played game.
    assert_eq!(end.dialog_open, end.score > 0);
    assert_eq!(app.stats().games, 1);
    assert_eq!(app.stats().best_score, end.score);
    let again = app.game_frame_at("2026-03-01").expect("still over");
    assert_eq!(again.score, end.score);
    assert_eq!(app.stats().games, 1);
}

#[test]
fn running_game_reports_nothing() {
    let mut app = app_with(Settings::default(), "", Some(7));
    let ev = app.menu_action(MenuAction::Start);
    app.on_event(ev);
    assert!(app.game_frame_at("2026-03-01").is_none());
    assert_eq!(app.stats().games, 0);
}

#[test]
fn autopilot_games_stay_out_of_stats_and_tables() {
    let settings = Settings {
        preset: SizePreset::Small,
        strategy: StrategyChoice::Chaos,
        ..Settings::default()
    };
    let mut app = app_with(settings, "", Some(3));
    finished_game(&mut app, MenuAction::Start);
    let end = app.game_frame_at("2026-03-01").expect("the game is over");
    assert_eq!(end.key, "walls-16x12-normal");
    assert!(!end.dialog_open);
    assert_eq!(app.stats().games, 0);
}

#[test]
fn daily_run_is_filed_under_the_day() {
    let settings = Settings {
        boundary: BoundaryMode::Periodic,
        preset: SizePreset::Small,
        ..Settings::default()
    };
    let mut app = app_with(settings, "", Some(11));
    let ev = app.menu_action(MenuAction::Daily);
    app.on_event(ev);
    let session = app.take_session().expect("a game was started");
    // The daily board is the medium one with walls, whatever the menu says.
    let board = *session.game_state().board();
    assert_eq!((board.width, board.height), (24, 18));
    assert_eq!(board.boundary, BoundaryMode::Walls);
    app.resume_session(session);
    let mut session = app.take_session().unwrap();
    play_out(&mut session);
    app.resume_session(session);
    let end = app.game_frame_at("2026-03-01").expect("the game is over");
    assert_eq!(end.key, "daily-2026-03-01");
}

#[test]
fn fixed_seed_starts_every_game_on_it() {
    let mut app = app_with(Settings::default(), "", Some(99));
    let ev = app.menu_action(MenuAction::Start);
    app.on_event(ev);
    let session = app.take_session().unwrap();
    assert_eq!(session.seed(), 99);
    app.resume_session(session);
    app.on_event(SessionEvent::Restart);
    assert_eq!(app.take_session().unwrap().seed(), 99);
}

#[test]
fn saved_name_is_trimmed_or_anonymous() {
    let mut app = app_with(Settings::default(), "  Ada  ", None);
    let send = app.save_name_at("walls-16x12-fast", 12, "2026-01-02");
    assert_eq!(send, None);
    app.set_player_name("   ".to_string());
    app.save_name_at("walls-16x12-fast", 7, "2026-01-03");
    let table = app.highscores().table("walls-16x12-fast");
    assert_eq!(table.len(), 2);
    assert_eq!(table[0].name, "Ada");
    assert_eq!(table[0].score, 12);
    assert_eq!(table[0].date, "2026-01-02");
    assert_eq!(table[1].name, "Anonym");
    assert_eq!(table[1].score, 7);
    assert!(app.online().pending().is_empty());
}

#[test]
fn odd_height_drops_the_hamilton_autopilot() {
    let mut app = app_with(Settings::default(), "", None);
    let odd = Settings {
        preset: SizePreset::Custom,
        custom_width: 20,
        custom_height: 15,
        strategy: StrategyChoice::Hamilton,
        ..Settings::default()
    };
    app.update_settings(odd);
    assert_eq!(app.settings().strategy, StrategyChoice::Human);
    let even = Settings {
        preset: SizePreset::Custom,
        custom_width: 20,
        custom_height: 14,
        strategy: StrategyChoice::Hamilton,
        ..Settings::default()
    };
    app.update_settings(even);
    assert_eq!(app.settings().strategy, StrategyChoice::Hamilton);
}

#[test]
fn leaving_to_the_menu_ends_the_game_screen() {
    let mut app = app_with(Settings::default(), "", Some(5));
    let ev = app.menu_action(MenuAction::Start);
    app.on_event(ev);
    app.on_event(SessionEvent::BackToMenu);
    assert!(app.take_session().is_none());
    assert_eq!(app.menu_action(MenuAction::Stay), SessionEvent::Continue);
}
