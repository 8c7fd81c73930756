//! Wire types shared by the client and the highscore server: plain data.
use vstd::prelude::*;

use crate::board::BoundaryMode;
use crate::replay::Replay;

verus! {

/// Client → server: a finished run submitted to a global leaderboard.
///
/// `claimed_score` is informational only; the server re-simulates the
/// [`Replay`] and trusts its own derived score. `signature` is reserved for
/// a later keypair scheme.
#[derive(Debug, Clone, PartialEq, Eq)]
pub struct ScoreSubmission {
    pub name: String,
    pub claimed_score: u32,
    pub replay: Replay,
    pub signature: Option<String>,
}

/// One global leaderboard entry.
#[derive(Debug, Clone, PartialEq, Eq)]
pub struct ScoreEntry {
    pub name: String,
    pub score: u32,
    /// ISO date (UTC), e.g. "2026-06-13".
    pub date: String,
}

/// Server → client: a leaderboard for one mode (or daily date).
#[derive(Debug, Clone, PartialEq, Eq)]
pub struct Leaderboard {
    pub mode: String,
    pub entries: Vec<ScoreEntry>,
}

/// Server → client: today's daily challenge.
#[derive(Debug, Clone, PartialEq, Eq)]
pub struct DailyChallenge {
    /// ISO date (UTC) the seed is valid for, "YYYY-MM-DD".
    pub date: String,
    pub seed: u64,
    /// Board the daily challenge is played on.
    pub width: i32,
    pub height: i32,
    pub boundary: BoundaryMode,
}

} // verus!
