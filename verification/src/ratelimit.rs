//! A small fixed-window per-client rate limiter.
//!
//! In-memory and dependency-free: clients are keyed by their address as a
//! 128-bit number (IPv4 addresses in their IPv6-mapped form). Stale entries
//! are pruned opportunistically so the map cannot grow without bound under a
//! stream of distinct clients.
use std::collections::HashMap;

use vstd::prelude::*;

verus! {

/// Past this many tracked clients, a hit first drops the entries whose
/// window has expired.
pub const PRUNE_THRESHOLD: usize = 10_000;

/// What the limiter knows: the window length, the budget per window and, per
/// client, the start of its current window and the hits counted in it.
pub struct LimiterView {
    pub window_secs: u64,
    pub max: u32,
    pub hits: Map<u128, (u64, u32)>,
}

/// `a - b`, or 0 when `b > a`.
pub open spec fn sat_sub(a: u64, b: u64) -> u64 {
    if a >= b {
        (a - b) as u64
    } else {
        0
    }
}

/// The entries kept by a prune at time `now`: those whose window started no
/// earlier than one window length ago.
pub open spec fn prune(hits: Map<u128, (u64, u32)>, now: u64, window: u64) -> Map<u128, (u64, u32)> {
    hits.restrict(hits.dom().filter(|k: u128| hits[k].0 >= sat_sub(now, window)))
}

/// The entries in effect when a hit arrives: pruned only past the threshold.
pub open spec fn before_hit(v: LimiterView, now: u64) -> Map<u128, (u64, u32)> {
    if v.hits.len() > PRUNE_THRESHOLD {
        prune(v.hits, now, v.window_secs)
    } else {
        v.hits
    }
}

/// The window entry a hit from `ip` at `now` counts in: the client's current
/// window if it has not expired yet, else a fresh one starting now.
pub open spec fn current_slot(hits: Map<u128, (u64, u32)>, ip: u128, now: u64, window: u64) -> (u64, u32) {
    if hits.contains_key(ip) && sat_sub(now, hits[ip].0) < window {
        hits[ip]
    } else {
        (now, 0)
    }
}

/// One hit from `ip` at time `now`: the limiter afterwards and whether the
/// hit is within the budget. A budget of zero disables limiting.
pub open spec fn hit(v: LimiterView, ip: u128, now: u64) -> (LimiterView, bool) {
    if v.max == 0 {
        (v, true)
    } else {
        let hits = before_hit(v, now);
        let slot = current_slot(hits, ip, now, v.window_secs);
        let count = if slot.1 < u32::MAX {
            (slot.1 + 1) as u32
        } else {
            u32::MAX
        };
        (LimiterView { hits: hits.insert(ip, (slot.0, count)), ..v }, count <= v.max)
    }
}

/// Counts hits per client in fixed windows and refuses those beyond the
/// budget.
pub struct RateLimiter {
    window_secs: u64,
    max: u32,
    hits: HashMap<u128, (u64, u32)>,
}

impl View for RateLimiter {
    type V = LimiterView;

    closed spec fn view(&self) -> LimiterView {
        LimiterView { window_secs: self.window_secs, max: self.max, hits: self.hits@ }
    }
}

/// Seconds since the Unix epoch by the system clock (0 before the epoch).
fn unix_secs() -> (s: u64) {
    let nanos = crate::daily::wall_clock_nanos();
    (nanos / 1_000_000_000) as u64
}

impl RateLimiter {
    /// A limiter allowing `max` hits per client per minute.
    pub fn per_minute(max: u32) -> (r: RateLimiter)
        ensures
            r@.window_secs == 60,
            r@.max == max,
            r@.hits == Map::<u128, (u64, u32)>::empty(),
    {
        RateLimiter { window_secs: 60, max, hits: HashMap::new() }
    }

    /// Record a hit from `ip` now; returns `true` if it is within the limit.
    /// `max == 0` disables limiting (always allowed).
    pub fn check(&mut self, ip: u128) -> (allowed: bool)
        ensures
            exists|now: u64| (final(self)@, allowed) == #[trigger] hit(old(self)@, ip, now),
    {
        let now = unix_secs();
        self.check_at(ip, now)
    }

    /// Record a hit from `ip` at time `now` (seconds); returns `true` if it
    /// is within the limit.
    pub fn check_at(&mut self, ip: u128, now: u64) -> (allowed: bool)
        ensures
            (final(self)@, allowed) == hit(old(self)@, ip, now),
    {
        broadcast use vstd::std_specs::hash::group_hash_axioms;

        if self.max == 0 {
            return true;
        }
        if self.hits.len() > PRUNE_THRESHOLD {
            let cutoff = now.saturating_sub(self.window_secs);
            self.hits = self.kept_since(cutoff);
            proof {
                assert(self.hits@ =~= prune(old(self)@.hits, now, old(self)@.window_secs));
            }
        }
        let mut slot: (u64, u32) = (now, 0);
        match self.hits.get(&ip) {
            Some(entry) => {
                if now.saturating_sub(entry.0) < self.window_secs {
                    slot = *entry;
                }
            },
            None => {},
        }
        let count = slot.1.saturating_add(1);
        self.hits.insert(ip, (slot.0, count));
        count <= self.max
    }

    /// The entries whose window started at or after `cutoff`.
    fn kept_since(&self, cutoff: u64) -> (kept: HashMap<u128, (u64, u32)>)
        ensures
            kept@ == self.hits@.restrict(self.hits@.dom().filter(|k: u128| self.hits@[k].0 >= cutoff)),
    {
        broadcast use vstd::std_specs::hash::group_hash_axioms;

        let ghost old_hits = self.hits@;
        let ghost want = old_hits.restrict(old_hits.dom().filter(|k: u128| old_hits[k].0 >= cutoff));
        let mut kept: HashMap<u128, (u64, u32)> = HashMap::new();
        for entry in it: self.hits.iter()
            invariant
                old_hits == self.hits@,
                want == old_hits.restrict(old_hits.dom().filter(|k: u128| old_hits[k].0 >= cutoff)),
                forall|k: u128| #[trigger]
                    kept@.contains_key(k) ==> want.contains_key(k) && kept@[k] == old_hits[k],
                forall|i: int|
                    0 <= i < it.index() && (*(#[trigger] it.seq()[i]).1).0 >= cutoff
                        ==> kept@.contains_key(*it.seq()[i].0),
                forall|i: int|
                    0 <= i < it.seq().len() ==> old_hits.contains_key(*#[trigger] it.seq()[i].0)
                        && old_hits[*it.seq()[i].0] == *it.seq()[i].1,
                forall|k: u128| #[trigger]
                    old_hits.contains_key(k) ==> it.seq().contains((&k, &old_hits[k])),
                it.index() == it.seq().len() ==> kept@ =~= want,
        {
            let (k, v) = entry;
            if v.0 >= cutoff {
                kept.insert(*k, *v);
            }
            proof {
                assert forall|k2: u128| #[trigger] want.contains_key(k2) implies (it.index() + 1
                    == it.seq().len() ==> kept@.contains_key(k2)) by {
                    assert(old_hits.contains_key(k2));
                    assert(it.seq().contains((&k2, &old_hits[k2])));
                }
                assert(it.index() + 1 == it.seq().len() ==> kept@ =~= want);
            }
        }
        kept
    }
}

/// Limiting is off with a zero budget: every hit is allowed and nothing is
/// recorded.
pub proof fn lemma_zero_budget_allows(v: LimiterView, ip: u128, now: u64)
    requires
        v.max == 0,
    ensures
        hit(v, ip, now) == (v, true),
{
}

/// A hit from one client leaves the window of every other client as it was
/// (unless that window has expired and is pruned).
pub proof fn lemma_clients_independent(v: LimiterView, ip: u128, other: u128, now: u64)
    requires
        ip != other,
        v.hits.contains_key(other),
        sat_sub(now, v.hits[other].0) < v.window_secs,
    ensures
        hit(v, ip, now).0.hits.contains_key(other),
        hit(v, ip, now).0.hits[other] == v.hits[other],
{
}

/// Once a client is refused, it stays refused for the rest of its window.
pub proof fn lemma_refused_until_window_ends(v: LimiterView, ip: u128, t1: u64, t2: u64)
    requires
        !hit(v, ip, t1).1,
        sat_sub(t2, hit(v, ip, t1).0.hits[ip].0) < v.window_secs,
    ensures
        !hit(hit(v, ip, t1).0, ip, t2).1,
{
}

/// Within one window a client gets at most `max` allowed hits: the count a
/// hit lands on never drops while the window lasts, so once it passes the
/// budget every further hit in the window is refused.
pub proof fn lemma_count_grows_within_window(v: LimiterView, ip: u128, t1: u64, t2: u64)
    requires
        v.max > 0,
        sat_sub(t2, hit(v, ip, t1).0.hits[ip].0) < v.window_secs,
    ensures
        hit(hit(v, ip, t1).0, ip, t2).0.hits[ip].1 >= hit(v, ip, t1).0.hits[ip].1,
        hit(hit(v, ip, t1).0, ip, t2).0.hits[ip].0 == hit(v, ip, t1).0.hits[ip].0,
{
}

} // verus!
