//! Submission checks of the global-highscore server: its configuration,
//! player-name validation and the verification of submitted runs. The
//! server trusts only the score it re-simulates itself.
use vstd::prelude::*;
use vstd::string::StrSliceExecFns;

use crate::api::ScoreSubmission;
use crate::mode::ModeBoard;
use crate::replay::{finished_run, hosts_snake, rejected_run, strictly_increasing, VerifiedRun};
use crate::text::{push_char, trim_str, trimmed};

verus! {

/// All tunables of the server. Defaults are safe for a small public host.
#[derive(Debug, Clone)]
pub struct ServerConfig {
    /// SQLite file. `None` opens an in-memory database.
    pub db_path: Option<String>,
    /// Directory of static files (the built WASM frontend) served at `/`.
    /// `None` disables static serving (API-only).
    pub static_dir: Option<String>,
    /// Highscores kept per mode (also the leaderboard length).
    pub max_entries: usize,
    /// Hard cap on the number of recorded inputs in a submission.
    pub max_inputs: usize,
    /// Hard cap on ticks the re-simulation may run before giving up.
    pub max_ticks: u32,
    /// Maximum player-name length, in characters.
    pub max_name_len: usize,
    /// Request body size limit, in bytes.
    pub max_body_bytes: usize,
    /// Allowed POST submissions per client IP per minute.
    pub rate_limit_per_min: u32,
    /// Concurrent re-simulations allowed (CPU guard).
    pub verify_concurrency: usize,
    /// Trust the `X-Forwarded-For` header for the client IP (only enable
    /// behind a proxy/tunnel you control).
    pub trust_forwarded_for: bool,
    /// Secret mixed into the daily-challenge seed derivation.
    pub daily_secret: u64,
    /// Allowed CORS origins. Empty disables CORS.
    pub cors_origins: Vec<String>,
}

impl Default for ServerConfig {
    fn default() -> (c: Self)
        ensures
            c.db_path is None,
            c.static_dir is None,
            c.max_entries == 10,
            c.max_inputs == 100_000,
            c.max_ticks == 2_000_000,
            c.max_name_len == 20,
            c.max_body_bytes == 512 * 1024,
            c.rate_limit_per_min == 20,
            c.verify_concurrency == 4,
            !c.trust_forwarded_for,
            c.daily_secret == 0x5165_4361_6c63_5346,
            c.cors_origins@.len() == 0,
    {
        ServerConfig {
            db_path: None,
            static_dir: None,
            max_entries: 10,
            max_inputs: 100_000,
            max_ticks: 2_000_000,
            max_name_len: 20,
            max_body_bytes: 512 * 1024,
            rate_limit_per_min: 20,
            verify_concurrency: 4,
            trust_forwarded_for: false,
            daily_secret: 0x5165_4361_6c63_5346,
            cors_origins: Vec::new(),
        }
    }
}

/// Why a submission was turned away.
#[derive(Debug, Clone, Copy, PartialEq, Eq, Structural)]
pub enum SubmitError {
    RateLimited,
    EmptyName,
    NameTooLong,
    ControlCharacters,
    TooManyInputs,
    BoardMismatch,
    SeedMismatch,
    /// The replay is inconsistent or does not finish in time.
    Unverifiable,
}

impl SubmitError {
    /// The message sent to the client.
    pub fn message(&self) -> (m: &'static str)
        ensures
            m@ == match *self {
                SubmitError::RateLimited => "rate limit exceeded"@,
                SubmitError::EmptyName => "name must not be empty"@,
                SubmitError::NameTooLong => "name too long"@,
                SubmitError::ControlCharacters => "name contains control characters"@,
                SubmitError::TooManyInputs => "too many inputs"@,
                SubmitError::BoardMismatch => "replay board does not match mode"@,
                SubmitError::SeedMismatch => "replay seed does not match challenge"@,
                SubmitError::Unverifiable => "inconsistent or non-terminating run"@,
            },
    {
        match *self {
            SubmitError::RateLimited => "rate limit exceeded",
            SubmitError::EmptyName => "name must not be empty",
            SubmitError::NameTooLong => "name too long",
            SubmitError::ControlCharacters => "name contains control characters",
            SubmitError::TooManyInputs => "too many inputs",
            SubmitError::BoardMismatch => "replay board does not match mode",
            SubmitError::SeedMismatch => "replay seed does not match challenge",
            SubmitError::Unverifiable => "inconsistent or non-terminating run",
        }
    }

    /// HTTP status of the answer: 429 for rate limiting, 400 otherwise.
    pub fn status_code(&self) -> (code: u16)
        ensures
            code == if *self == SubmitError::RateLimited {
                429u16
            } else {
                400u16
            },
    {
        match *self {
            SubmitError::RateLimited => 429,
            _ => 400,
        }
    }
}

/// A control character (Unicode general category `Cc`): `U+0000`–`U+001F`
/// and `U+007F`–`U+009F`.
pub open spec fn is_control(c: char) -> bool {
    (c as u32) <= 0x1F || (0x7F <= (c as u32) && (c as u32) <= 0x9F)
}

fn char_is_control(c: char) -> (r: bool)
    ensures
        r == is_control(c),
        (c as u32) < 0x20 ==> r,
        0x20 <= (c as u32) < 0x7F ==> !r,
        0x7F <= (c as u32) <= 0x9F ==> r,
        0xA0 <= (c as u32) ==> !r,
{
    let v = c as u32;
    v <= 0x1F || (0x7F <= v && v <= 0x9F)
}

/// The control characters are the C0 controls below the space, DEL and
/// the C1 controls: the space, every other printable ASCII character and
/// everything from U+00A0 on are not control characters.
pub proof fn lemma_control_characters(c: char)
    ensures
        (c as u32) < 0x20 ==> is_control(c),
        0x20 <= (c as u32) < 0x7F ==> !is_control(c),
        0x7F <= (c as u32) <= 0x9F ==> is_control(c),
        0xA0 <= (c as u32) ==> !is_control(c),
        !is_control(' '),
{
    assert(' ' as u32 == 0x20);
}

/// A name that is non-empty after trimming, within the length limit and
/// made of printable characters (space and other printable ASCII, or
/// anything from U+00A0 on) is accepted as its trimmed text.
pub proof fn lemma_printable_names_accepted(max_len: int, name: Seq<char>)
    requires
        0 < trimmed(name).len() <= max_len,
        forall|i: int|
            0 <= i < trimmed(name).len() ==> (0x20 <= (#[trigger] trimmed(name)[i] as u32) < 0x7F
                || 0xA0 <= (trimmed(name)[i] as u32)),
    ensures
        name_check(max_len, name) == Ok::<Seq<char>, SubmitError>(trimmed(name)),
{
    let t = trimmed(name);
    assert forall|i: int| 0 <= i < t.len() implies !is_control(#[trigger] t[i]) by {
        lemma_control_characters(t[i]);
    }
}

/// The outcome of name validation for a submitted name.
pub open spec fn name_check(max_len: int, name: Seq<char>) -> Result<Seq<char>, SubmitError> {
    let t = trimmed(name);
    if t.len() == 0 {
        Err(SubmitError::EmptyName)
    } else if t.len() > max_len {
        Err(SubmitError::NameTooLong)
    } else if exists|i: int| 0 <= i < t.len() && is_control(#[trigger] t[i]) {
        Err(SubmitError::ControlCharacters)
    } else {
        Ok(t)
    }
}

/// Validate a player name: trimmed, non-empty, at most `max_name_len`
/// characters, no control characters. Returns the trimmed name.
pub fn validate_name(cfg: &ServerConfig, name: &str) -> (r: Result<String, SubmitError>)
    ensures
        name_check(cfg.max_name_len as int, name@) matches Ok(t) ==> r matches Ok(s) && s@ == t,
        name_check(cfg.max_name_len as int, name@) matches Err(e) ==> r == Err::<String, SubmitError>(e),
        0 < trimmed(name@).len() <= cfg.max_name_len && (forall|i: int|
            0 <= i < trimmed(name@).len() ==> (0x20 <= (#[trigger] trimmed(name@)[i] as u32) < 0x7F
                || 0xA0 <= (trimmed(name@)[i] as u32))) ==> (r matches Ok(s) && s@ == trimmed(name@)),
{
    let t = trim_str(name);
    let n = t.unicode_len();
    if n == 0 {
        return Err(SubmitError::EmptyName);
    }
    if n > cfg.max_name_len {
        return Err(SubmitError::NameTooLong);
    }
    let mut owned = String::new();
    proof {
        assert(owned@ =~= Seq::<char>::empty());
    }
    let mut i: usize = 0;
    while i < n
        invariant
            n == t@.len(),
            0 < n <= cfg.max_name_len,
            t@ == trimmed(name@),
            0 <= i <= n,
            owned@ == t@.subrange(0, i as int),
            forall|k: int| 0 <= k < i ==> !is_control(#[trigger] t@[k]),
        decreases n - i,
    {
        let c = t.get_char(i);
        if char_is_control(c) {
            proof {
                let tt = trimmed(name@);
                assert(tt[i as int] == c);
                assert(is_control(tt[i as int]));
                assert(exists|k: int| 0 <= k < tt.len() && is_control(#[trigger] tt[k]));
                assert(tt.len() != 0);
                assert(!(tt.len() > cfg.max_name_len as int));
                assert(name_check(cfg.max_name_len as int, name@) == Err::<Seq<char>, SubmitError>(
                    SubmitError::ControlCharacters,
                ));
            }
            return Err(SubmitError::ControlCharacters);
        }
        push_char(&mut owned, c);
        proof {
            assert(t@.subrange(0, i + 1) =~= t@.subrange(0, i as int).push(c));
        }
        i += 1;
    }
    proof {
        assert(owned@ =~= t@);
    }
    Ok(owned)
}

/// The leaderboard mode of a daily challenge date.
pub fn daily_mode(date: &str) -> (m: String)
    ensures
        m@ == "daily-"@ + date@,
{
    let mut m = String::new();
    proof {
        assert(m@ =~= Seq::<char>::empty());
    }
    let prefix = "daily-";
    let pn = prefix.unicode_len();
    let mut i: usize = 0;
    while i < pn
        invariant
            pn == prefix@.len(),
            0 <= i <= pn,
            m@ == prefix@.subrange(0, i as int),
        decreases pn - i,
    {
        push_char(&mut m, prefix.get_char(i));
        proof {
            assert(prefix@.subrange(0, i + 1) =~= prefix@.subrange(0, i as int).push(prefix@[i as int]));
        }
        i += 1;
    }
    let n = date.unicode_len();
    let mut j: usize = 0;
    while j < n
        invariant
            pn == prefix@.len(),
            n == date@.len(),
            0 <= j <= n,
            m@ == prefix@ + date@.subrange(0, j as int),
        decreases n - j,
    {
        push_char(&mut m, date.get_char(j));
        proof {
            assert(date@.subrange(0, j + 1) =~= date@.subrange(0, j as int).push(date@[j as int]));
        }
        j += 1;
    }
    proof {
        assert(prefix@.subrange(0, pn as int) =~= prefix@);
        assert(date@.subrange(0, n as int) =~= date@);
        assert(prefix@ == "daily-"@);
    }
    m
}

/// The cheap checks of a submission, in order: the name, the input count,
/// the board its mode implies and (for the daily challenge) the seed of the
/// day. Returns the cleaned name when all pass.
pub fn screen_submission(
    cfg: &ServerConfig,
    expected: ModeBoard,
    expected_seed: Option<u64>,
    sub: &ScoreSubmission,
) -> (r: Result<String, SubmitError>)
    ensures
        name_check(cfg.max_name_len as int, sub.name@) matches Err(e) ==> r == Err::<String, SubmitError>(e),
        name_check(cfg.max_name_len as int, sub.name@) is Ok ==> {
            let rp = sub.replay;
            if rp.inputs@.len() > cfg.max_inputs {
                r == Err::<String, SubmitError>(SubmitError::TooManyInputs)
            } else if rp.width != expected.width || rp.height != expected.height || rp.boundary
                != expected.boundary {
                r == Err::<String, SubmitError>(SubmitError::BoardMismatch)
            } else if expected_seed matches Some(s) && rp.seed != s {
                r == Err::<String, SubmitError>(SubmitError::SeedMismatch)
            } else {
                r matches Ok(n) && n@ == name_check(cfg.max_name_len as int, sub.name@)->Ok_0
            }
        },
{
    let name = match validate_name(cfg, sub.name.as_str()) {
        Ok(n) => n,
        Err(e) => {
            return Err(e);
        },
    };
    let r = &sub.replay;
    if r.inputs.len() > cfg.max_inputs {
        return Err(SubmitError::TooManyInputs);
    }
    if r.width != expected.width || r.height != expected.height || r.boundary != expected.boundary {
        return Err(SubmitError::BoardMismatch);
    }
    match expected_seed {
        Some(seed) => {
            if r.seed != seed {
                return Err(SubmitError::SeedMismatch);
            }
        },
        None => {},
    }
    Ok(name)
}

/// Validate and verify a submission against the board its mode implies
/// (and, for the daily challenge, the seed of the day). Checks run cheapest
/// first: the name, the input count, the board, the seed, and finally the
/// re-simulation. On success returns the cleaned name and the verified run,
/// whose score is the one to store.
pub fn check_submission(
    cfg: &ServerConfig,
    expected: ModeBoard,
    expected_seed: Option<u64>,
    sub: &ScoreSubmission,
) -> (r: Result<(String, VerifiedRun), SubmitError>)
    ensures
        name_check(cfg.max_name_len as int, sub.name@) matches Err(e) ==> r == Err::<
            (String, VerifiedRun),
            SubmitError,
        >(e),
        name_check(cfg.max_name_len as int, sub.name@) is Ok ==> {
            let rp = sub.replay;
            if rp.inputs@.len() > cfg.max_inputs {
                r == Err::<(String, VerifiedRun), SubmitError>(SubmitError::TooManyInputs)
            } else if rp.width != expected.width || rp.height != expected.height || rp.boundary
                != expected.boundary {
                r == Err::<(String, VerifiedRun), SubmitError>(SubmitError::BoardMismatch)
            } else if expected_seed matches Some(s) && rp.seed != s {
                r == Err::<(String, VerifiedRun), SubmitError>(SubmitError::SeedMismatch)
            } else {
                &&& r matches Ok(ok) ==> ok.0@ == name_check(cfg.max_name_len as int, sub.name@)->Ok_0
                    && finished_run(rp, cfg.max_ticks, ok.1)
                &&& r matches Err(e) ==> e == SubmitError::Unverifiable && (!hosts_snake(
                    rp.width as int,
                    rp.height as int,
                ) || !strictly_increasing(rp.inputs@) || rejected_run(rp, cfg.max_ticks))
                &&& hosts_snake(rp.width as int, rp.height as int) && strictly_increasing(rp.inputs@)
                    && !rejected_run(rp, cfg.max_ticks) ==> r is Ok
            }
        },
{
    let name = match screen_submission(cfg, expected, expected_seed, sub) {
        Ok(n) => n,
        Err(e) => {
            return Err(e);
        },
    };
    let r = &sub.replay;
    match r.verify(cfg.max_ticks) {
        Some(run) => Ok((name, run)),
        None => Err(SubmitError::Unverifiable),
    }
}

} // verus!
