use hexsnake::api::ScoreSubmission;
use hexsnake::board::BoundaryMode;
use hexsnake::coords::Direction;
use hexsnake::mode::ModeBoard;
use hexsnake::replay::Replay;
use hexsnake::server::{check_submission, daily_mode, validate_name, ServerConfig, SubmitError};

fn submission(name: &str, replay: Replay) -> ScoreSubmission {
    ScoreSubmission {
        name: name.to_string(),
        claimed_score: 999,
        replay,
        signature: None,
    }
}

fn straight_run(width: i32, height: i32, seed: u64) -> Replay {
    Replay {
        width,
        height,
        boundary: BoundaryMode::Walls,
        seed,
        inputs: vec![],
    }
}

fn medium() -> ModeBoard {
    ModeBoard {
        boundary: BoundaryMode::Walls,
        width: 24,
        height: 18,
    }
}

#[test]
fn names_are_trimmed_and_checked() {
    let cfg = ServerConfig::default();
    assert_eq!(validate_name(&cfg, "  Ada  "), Ok("Ada".to_string()));
    assert_eq!(validate_name(&cfg, "   "), Err(SubmitError::EmptyName));
    assert_eq!(validate_name(&cfg, &"x".repeat(21)), Err(SubmitError::NameTooLong));
    assert_eq!(validate_name(&cfg, &"ä".repeat(20)), Ok("ä".repeat(20)));
    assert_eq!(validate_name(&cfg, "a\u{7}b"), Err(SubmitError::ControlCharacters));
    assert_eq!(SubmitError::NameTooLong.message(), "name too long");
    assert_eq!(SubmitError::RateLimited.status_code(), 429);
    assert_eq!(SubmitError::EmptyName.status_code(), 400);
}

#[test]
fn daily_mode_prefixes_the_date() {
    assert_eq!(daily_mode("2026-06-13"), "daily-2026-06-13");
}

#[test]
fn server_derives_score_ignoring_inflated_claim() {
    let cfg = ServerConfig::default();
    let sub = submission("Ada", straight_run(24, 18, 3));
    let (name, run) = check_submission(&cfg, medium(), None, &sub).unwrap();
    assert_eq!(name, "Ada");
    assert!(run.score < 999);
}

#[test]
fn submissions_are_rejected_in_order() {
    let cfg = ServerConfig::default();
    let bad_board = submission("Ada", straight_run(16, 12, 3));
    assert_eq!(check_submission(&cfg, medium(), None, &bad_board).unwrap_err(), SubmitError::BoardMismatch);
    let wrong_seed = submission("Ada", straight_run(24, 18, 3));
    assert_eq!(check_submission(&cfg, medium(), Some(4), &wrong_seed).unwrap_err(), SubmitError::SeedMismatch);
    let bad_name = submission("", straight_run(16, 12, 3));
    assert_eq!(check_submission(&cfg, medium(), Some(4), &bad_name).unwrap_err(), SubmitError::EmptyName);
    let mut many = straight_run(24, 18, 3);
    many.inputs = (0..100_001u32).map(|t| (t, Direction::North)).collect();
    assert_eq!(
        check_submission(&cfg, medium(), None, &submission("Ada", many)).unwrap_err(),
        SubmitError::TooManyInputs
    );
    let mut late = straight_run(24, 18, 3);
    late.inputs = vec![(10_000, Direction::NorthEast)];
    assert_eq!(
        check_submission(&cfg, medium(), None, &submission("Ada", late)).unwrap_err(),
        SubmitError::Unverifiable
    );
}

#[test]
fn default_config_values() {
    let cfg = ServerConfig::default();
    assert_eq!(cfg.max_entries, 10);
    assert_eq!(cfg.max_inputs, 100_000);
    assert_eq!(cfg.max_ticks, 2_000_000);
    assert_eq!(cfg.max_body_bytes, 512 * 1024);
    assert_eq!(cfg.daily_secret, 0x5165_4361_6c63_5346);
    assert!(cfg.cors_origins.is_empty());
}
