use hexsnake::api::{DailyChallenge, Leaderboard, ScoreEntry, ScoreSubmission};
use hexsnake::board::BoundaryMode;
use hexsnake::client::{PendingSubmission, Reachability};
use hexsnake::online::{Inbox, Online};
use hexsnake::replay::Replay;

fn submission(name: &str) -> ScoreSubmission {
    ScoreSubmission {
        name: name.to_string(),
        claimed_score: 3,
        replay: Replay {
            width: 16,
            height: 12,
            boundary: BoundaryMode::Walls,
            seed: 1,
            inputs: vec![],
        },
        signature: None,
    }
}

fn board(mode: &str, score: u32) -> Leaderboard {
    Leaderboard {
        mode: mode.to_string(),
        entries: vec![ScoreEntry {
            name: "ann".to_string(),
            score,
            date: "2026-06-13".to_string(),
        }],
    }
}

fn job(id: u64) -> PendingSubmission {
    PendingSubmission {
        id,
        mode: "walls-16x12-normal".to_string(),
        daily: false,
        submission: submission("old"),
    }
}

#[test]
fn persisted_queue_sets_the_next_id() {
    let online = Online::new(None, vec![job(3), job(7), job(5)]);
    assert_eq!(online.next_id(), 8);
    assert_eq!(online.pending().len(), 3);
    assert!(!online.enabled());
    assert_eq!(online.reachability(), Reachability::Unknown);
    assert_eq!(Online::new(None, vec![]).next_id(), 0);
}

#[test]
fn offline_runs_stay_queued() {
    let mut online = Online::new(None, vec![]);
    assert_eq!(online.submit("walls-16x12-normal".to_string(), false, submission("a")), None);
    assert_eq!(online.pending().len(), 1);
    assert_eq!(online.pending()[0].id, 0);
    assert!(online.due_for_retry(1_000_000).is_empty(), "no server, no retries");
    assert!(!online.start_fetch("walls-16x12-normal"));
    assert!(online.start_send(0).is_none());
}

#[test]
fn submission_lifecycle() {
    let mut online = Online::new(Some("http://scores.example//".to_string()), vec![]);
    let id = online.submit("walls-16x12-normal".to_string(), false, submission("a")).unwrap();
    let url = online.start_send(id).unwrap();
    assert_eq!(url, "http://scores.example/highscores/walls-16x12-normal");
    // Under way: not due for a retry.
    assert!(online.due_for_retry(0).is_empty());
    online.receive(Inbox::SubmitFailed { id });
    assert_eq!(online.reachability(), Reachability::Offline);
    assert_eq!(online.pending().len(), 1, "a failed send keeps the run");
    assert_eq!(online.due_for_retry(20_000), vec![id]);
    assert!(online.due_for_retry(30_000).is_empty(), "throttled within the interval");
    assert!(online.due_for_retry(10_000).is_empty(), "clock going backwards waits");
    online.start_send(id).unwrap();
    online.receive(Inbox::Submitted {
        id,
        mode: "walls-16x12-normal".to_string(),
        board: board("walls-16x12-normal", 9),
    });
    assert_eq!(online.reachability(), Reachability::Online);
    assert!(online.pending().is_empty());
    assert_eq!(online.board("walls-16x12-normal").unwrap().entries[0].score, 9);
    assert!(online.due_for_retry(100_000).is_empty());
}

#[test]
fn daily_runs_post_to_the_challenge_endpoint() {
    let mut online = Online::new(Some("https://h".to_string()), vec![]);
    let id = online.submit("daily".to_string(), true, submission("d")).unwrap();
    assert_eq!(online.start_send(id).unwrap(), "https://h/challenge/highscores");
    assert!(online.start_send(id + 1).is_none(), "unknown run");
}

#[test]
fn fetches_are_not_repeated() {
    let mut online = Online::new(Some(String::new()), vec![]);
    assert!(online.start_fetch("daily"));
    assert!(!online.start_fetch("daily"), "already under way");
    assert!(online.start_fetch("torus-24x18-fast"));
    online.receive(Inbox::Fetched { mode: "daily".to_string(), board: board("daily", 4) });
    assert!(!online.start_fetch("daily"), "cached");
    assert_eq!(online.board("daily").unwrap().entries[0].score, 4);
    online.receive(Inbox::Fetched { mode: "daily".to_string(), board: board("daily", 6) });
    assert_eq!(online.board("daily").unwrap().entries[0].score, 6);
    assert!(online.board("walls-16x12-normal").is_none());
}

#[test]
fn challenge_arrives() {
    let mut online = Online::new(Some("/".to_string()), vec![job(0)]);
    assert!(online.challenge().is_none());
    online.receive(Inbox::Challenge(DailyChallenge {
        date: "2026-06-13".to_string(),
        seed: 42,
        width: 24,
        height: 18,
        boundary: BoundaryMode::Walls,
    }));
    assert_eq!(online.challenge().unwrap().seed, 42);
    assert_eq!(online.reachability(), Reachability::Online);
    assert_eq!(online.start_send(0).unwrap(), "/highscores/walls-16x12-normal");
}
