use hexsnake::board::BoundaryMode;
use hexsnake::client::SessionEvent;
use hexsnake::coords::Direction;
use hexsnake::game::Status;
use hexsnake::session::{build_autopilot, GameSession, SessionKey};
use hexsnake::settings::{Settings, SizePreset, Speed, StrategyChoice};

fn settings(strategy: StrategyChoice) -> Settings {
    Settings {
        boundary: BoundaryMode::Walls,
        preset: SizePreset::Small,
        strategy,
        ..Settings::default()
    }
}

fn play_out(session: &mut GameSession, limit: u32) {
    let mut n = 0;
    while session.step() && n < limit {
        n += 1;
    }
}

#[test]
fn scripted_run_replays_to_the_same_outcome() {
    let script = [
        Direction::NorthEast,
        Direction::North,
        Direction::NorthWest,
        Direction::SouthWest,
        Direction::South,
    ];
    let mut session = GameSession::new(&settings(StrategyChoice::Human), 11, &script);
    play_out(&mut session, 10_000);
    let state = session.game_state();
    assert_ne!(state.status(), Status::Running);
    let replay = session.replay();
    assert_eq!(replay.inputs.len(), script.len());
    assert_eq!(replay.inputs[0], (0, Direction::NorthEast));
    let run = replay.verify(1_000_000).expect("recorded run verifies");
    assert_eq!(run.score, state.score());
    assert_eq!(run.status, state.status());
}

#[test]
fn autopilot_run_is_marked_and_replays() {
    let mut session = GameSession::new(&settings(StrategyChoice::Greedy), 5, &[]);
    assert!(session.autopilot_on());
    play_out(&mut session, 20_000);
    assert!(session.autopilot_used());
    let state = session.game_state();
    let run = session.replay().verify(1_000_000).expect("autopilot run verifies");
    assert_eq!(run.score, state.score());
    assert!(state.score() > 0);
}

#[test]
fn steering_hands_control_back_and_is_not_recorded() {
    let mut session = GameSession::new(&settings(StrategyChoice::Greedy), 5, &[]);
    assert_eq!(session.handle_key(SessionKey::Steer(Direction::NorthEast)), SessionEvent::Continue);
    assert!(!session.autopilot_on());
    assert!(session.step());
    assert_eq!(session.game_state().direction(), Direction::NorthEast);
    // The buffered key press went straight into the game; the recorder saw
    // an empty tick.
    assert!(session.replay().inputs.is_empty());
    assert!(!session.autopilot_used());
}

#[test]
fn pause_and_menu_keys() {
    let mut session = GameSession::new(&settings(StrategyChoice::Human), 1, &[]);
    assert_eq!(session.handle_key(SessionKey::Pause), SessionEvent::Continue);
    assert!(session.paused());
    assert!(!session.step(), "paused sessions do not tick");
    assert_eq!(session.handle_key(SessionKey::Space), SessionEvent::Continue);
    assert!(!session.paused());
    assert_eq!(session.handle_key(SessionKey::Enter), SessionEvent::Continue);
    assert_eq!(session.handle_key(SessionKey::Escape), SessionEvent::BackToMenu);
    play_out(&mut session, 1_000);
    assert_eq!(session.game_state().status(), Status::GameOver);
    assert_eq!(session.handle_key(SessionKey::Enter), SessionEvent::Restart);
    assert_eq!(session.handle_key(SessionKey::Space), SessionEvent::Restart);
    assert_eq!(session.handle_key(SessionKey::Pause), SessionEvent::Continue);
    assert!(!session.paused(), "no pause once the game is over");
}

#[test]
fn slowest_speed_is_remembered() {
    let mut s = settings(StrategyChoice::Human);
    s.speed = Speed::Normal;
    let mut session = GameSession::new(&s, 2, &[]);
    session.set_speed(Speed::Fast);
    assert_eq!(session.slowest_speed(), Speed::Normal);
    session.set_speed(Speed::Slow);
    session.set_speed(Speed::Fast);
    assert_eq!(session.speed(), Speed::Fast);
    assert_eq!(session.slowest_speed(), Speed::Slow);
}

#[test]
fn strategy_switch_and_availability() {
    let mut session = GameSession::new(&settings(StrategyChoice::Human), 3, &[]);
    assert!(!session.autopilot_on());
    assert_eq!(session.handle_key(SessionKey::ToggleAutopilot), SessionEvent::Continue);
    assert!(!session.autopilot_on(), "nothing to toggle without an autopilot");
    session.choose_strategy(StrategyChoice::Hamilton);
    assert!(session.autopilot_on(), "16x12 has a serpentine cycle");
    session.handle_key(SessionKey::ToggleAutopilot);
    assert!(!session.autopilot_on());
    session.choose_strategy(StrategyChoice::MonteCarlo);
    assert!(!session.autopilot_on());

    let board = *session.game_state().board();
    assert!(build_autopilot(StrategyChoice::Planner, 0, &board).is_some());
    assert!(build_autopilot(StrategyChoice::Human, 0, &board).is_none());
    let odd = hexsnake::board::Board::new(15, 11, BoundaryMode::Walls);
    assert!(build_autopilot(StrategyChoice::Hamilton, 0, &odd).is_none());
}

#[test]
fn effects_report_eating_and_game_over() {
    let mut session = GameSession::new(&settings(StrategyChoice::Greedy), 9, &[]);
    let mut ate = 0;
    let mut ended = 0;
    for _ in 0..50_000 {
        if !session.step() {
            break;
        }
        let (food, over) = session.detect_effects();
        if let Some(cell) = food {
            assert_eq!(cell, session.game_state().head());
            ate += 1;
        }
        if over {
            ended += 1;
        }
    }
    let (_, over) = session.detect_effects();
    assert!(!over, "the end is reported once");
    assert_eq!(ate as u32, session.game_state().score());
    assert_eq!(ended, 1);
}

#[test]
fn session_keeps_the_chosen_theme() {
    let chosen = Settings {
        theme: hexsnake::theme::ThemeId::Neon,
        ..settings(StrategyChoice::Human)
    };
    let session = GameSession::new(&chosen, 5, &[]);
    assert_eq!(session.theme(), hexsnake::theme::ThemeId::Neon);
}
