//! Client-side pieces of the game that are not drawing: session events,
//! leaderboard connection state, the local daily seed and the scripted
//! input format.
use vstd::prelude::*;
use vstd::string::StrSliceExecFns;

use crate::api::ScoreSubmission;
use crate::board::Board;
use crate::coords::{all_directions, dir_index, Direction, Offset};
use crate::daily::{daily_seed, seed_for_day, unix_days};

verus! {

/// What a game session asks the surrounding app to do after a frame.
#[derive(Debug, Clone, Copy, PartialEq, Eq, Structural)]
pub enum SessionEvent {
    Continue,
    Restart,
    BackToMenu,
}

/// Connection hint shown in the UI.
#[derive(Debug, Clone, Copy, PartialEq, Eq, Structural)]
pub enum Reachability {
    Unknown,
    Online,
    Offline,
}

/// A run awaiting (re)submission. Persisted so an offline run is not lost.
#[derive(Debug, Clone)]
pub struct PendingSubmission {
    pub id: u64,
    /// Leaderboard key the run belongs to (also the cache key).
    pub mode: String,
    /// `true` for the daily challenge endpoint, `false` for a preset mode.
    pub daily: bool,
    pub submission: ScoreSubmission,
}

/// Days since the Unix epoch (UTC), wall-clock based.
pub fn today_days() -> (d: i64)
    ensures
        0 <= d <= 213_503_982_334_601,
{
    unix_days()
}

/// Date-based daily-challenge seed used when no server is reachable: the
/// server's mixing of the day number, without the secret. Stable per day.
pub fn local_daily_seed() -> (s: u64)
    ensures
        exists|days: i64| 0 <= days <= 213_503_982_334_601 && s == #[trigger] daily_seed(days, 0),
        s <= u32::MAX,
{
    let days = today_days();
    seed_for_day(days, 0)
}

/// The direction a script character stands for (case-insensitive):
/// `w e d s a q` are North, NorthEast, SouthEast, South, SouthWest,
/// NorthWest; anything else is skipped.
pub open spec fn script_direction(c: char) -> Option<Direction> {
    if c == 'w' || c == 'W' {
        Some(Direction::North)
    } else if c == 'e' || c == 'E' {
        Some(Direction::NorthEast)
    } else if c == 'd' || c == 'D' {
        Some(Direction::SouthEast)
    } else if c == 's' || c == 'S' {
        Some(Direction::South)
    } else if c == 'a' || c == 'A' {
        Some(Direction::SouthWest)
    } else if c == 'q' || c == 'Q' {
        Some(Direction::NorthWest)
    } else {
        None
    }
}

/// The directions of a script, in order, skipping other characters.
pub open spec fn script_directions(s: Seq<char>) -> Seq<Direction>
    decreases s.len(),
{
    if s.len() == 0 {
        Seq::empty()
    } else {
        let rest = script_directions(s.drop_last());
        match script_direction(s.last()) {
            Some(d) => rest.push(d),
            None => rest,
        }
    }
}

fn char_direction(c: char) -> (r: Option<Direction>)
    ensures
        r == script_direction(c),
{
    if c == 'w' || c == 'W' {
        Some(Direction::North)
    } else if c == 'e' || c == 'E' {
        Some(Direction::NorthEast)
    } else if c == 'd' || c == 'D' {
        Some(Direction::SouthEast)
    } else if c == 's' || c == 'S' {
        Some(Direction::South)
    } else if c == 'a' || c == 'A' {
        Some(Direction::SouthWest)
    } else if c == 'q' || c == 'Q' {
        Some(Direction::NorthWest)
    } else {
        None
    }
}

/// Parse a scripted input sequence such as `"wwqaa"`.
pub fn parse_input_script(script: &str) -> (dirs: Vec<Direction>)
    ensures
        dirs@ == script_directions(script@),
{
    let n = script.unicode_len();
    let mut dirs: Vec<Direction> = Vec::new();
    let mut i: usize = 0;
    while i < n
        invariant
            n == script@.len(),
            0 <= i <= n,
            dirs@ == script_directions(script@.subrange(0, i as int)),
        decreases n - i,
    {
        let c = script.get_char(i);
        proof {
            let pre = script@.subrange(0, i + 1);
            assert(pre.drop_last() =~= script@.subrange(0, i as int));
            assert(pre.last() == c);
        }
        match char_direction(c) {
            Some(d) => dirs.push(d),
            None => {},
        }
        i += 1;
    }
    proof {
        assert(script@.subrange(0, n as int) =~= script@);
    }
    dirs
}

/// The direction leading from `a` to `b`, if they are board neighbors
/// (torus-aware): the first in clockwise order.
pub fn direction_between(board: &Board, a: Offset, b: Offset) -> (r: Option<Direction>)
    requires
        board.wf(),
        board.in_bounds(a),
    ensures
        r matches Some(d) ==> board.neighbor_of(a, d) == Some(b) && forall|e: Direction|
            #[trigger] dir_index(e) < dir_index(d) ==> board.neighbor_of(a, e) != Some(b),
        r is None ==> forall|e: Direction| #[trigger] board.neighbor_of(a, e) != Some(b),
{
    let dirs = Direction::all();
    let mut t: usize = 0;
    while t < 6
        invariant
            board.wf(),
            board.in_bounds(a),
            dirs@ == all_directions(),
            0 <= t <= 6,
            forall|s: int| 0 <= s < t ==> board.neighbor_of(a, #[trigger] all_directions()[s]) != Some(b),
        decreases 6 - t,
    {
        let d = dirs[t];
        if board.neighbor(a, d) == Some(b) {
            proof {
                assert forall|e: Direction| #[trigger] dir_index(e) < dir_index(d) implies board.neighbor_of(a, e)
                    != Some(b) by {
                    assert(all_directions()[dir_index(e)] == e);
                }
            }
            return Some(d);
        }
        t += 1;
    }
    proof {
        assert forall|e: Direction| #[trigger] board.neighbor_of(a, e) != Some(b) by {
            assert(all_directions()[dir_index(e)] == e);
        }
    }
    None
}

} // verus!
