//! The client's bookkeeping for the optional highscore server: cached
//! leaderboards, requests under way, the queue of runs awaiting submission
//! and the daily challenge. The app performs the requests; this state decides
//! which to make and takes in their results. A run stays queued until the
//! server has accepted it, so a run made while offline is never lost.
use vstd::prelude::*;

use crate::api::{DailyChallenge, Leaderboard, ScoreSubmission};
use crate::client::{PendingSubmission, Reachability};
use crate::text::{push_str, str_equals};

verus! {

/// Minimum milliseconds between two retries of the pending queue.
pub const RETRY_INTERVAL_MS: u64 = 15_000;

/// A result handed back by a finished request.
pub enum Inbox {
    Fetched { mode: String, board: Leaderboard },
    Submitted { id: u64, mode: String, board: Leaderboard },
    SubmitFailed { id: u64 },
    Challenge(DailyChallenge),
}

/// The cached leaderboard under `key`, if any.
pub open spec fn cached(boards: Seq<(String, Leaderboard)>, key: Seq<char>) -> Option<Leaderboard> {
    if exists|i: int| 0 <= i < boards.len() && (#[trigger] boards[i]).0@ == key {
        Some(boards[choose|i: int| 0 <= i < boards.len() && (#[trigger] boards[i]).0@ == key].1)
    } else {
        None
    }
}

/// Leaderboard keys are distinct.
pub open spec fn keys_distinct(boards: Seq<(String, Leaderboard)>) -> bool {
    forall|i: int, j: int|
        0 <= i < j < boards.len() ==> (#[trigger] boards[i]).0@ != (#[trigger] boards[j]).0@
}

/// With distinct keys, the cache entry at a position is the cached value of
/// its key.
proof fn lemma_cached_at(boards: Seq<(String, Leaderboard)>, i: int)
    requires
        keys_distinct(boards),
        0 <= i < boards.len(),
    ensures
        cached(boards, boards[i].0@) == Some(boards[i].1),
{
    let k = boards[i].0@;
    let c = choose|j: int| 0 <= j < boards.len() && (#[trigger] boards[j]).0@ == k;
    if c < i {
        assert(boards[c].0@ != boards[i].0@);
    } else if c > i {
        assert(boards[i].0@ != boards[c].0@);
    }
}

/// Replacing the entry of a present key.
proof fn lemma_cached_replace(boards: Seq<(String, Leaderboard)>, i: int, key: String, board: Leaderboard)
    requires
        keys_distinct(boards),
        0 <= i < boards.len(),
        boards[i].0@ == key@,
    ensures
        keys_distinct(boards.update(i, (key, board))),
        forall|k: Seq<char>|
            #[trigger] cached(boards.update(i, (key, board)), k) == if k == key@ {
                Some(board)
            } else {
                cached(boards, k)
            },
{
    let nb = boards.update(i, (key, board));
    assert forall|a: int, b: int| 0 <= a < b < nb.len() implies (#[trigger] nb[a]).0@ != (
    #[trigger] nb[b]).0@ by {
        assert(boards[a].0@ != boards[b].0@);
    }
    assert forall|k: Seq<char>|
        #[trigger] cached(nb, k) == if k == key@ {
            Some(board)
        } else {
            cached(boards, k)
        } by {
        if k == key@ {
            lemma_cached_at(nb, i);
        } else if exists|j: int| 0 <= j < boards.len() && (#[trigger] boards[j]).0@ == k {
            let j = choose|j: int| 0 <= j < boards.len() && (#[trigger] boards[j]).0@ == k;
            lemma_cached_at(boards, j);
            lemma_cached_at(nb, j);
        } else {
            if exists|j: int| 0 <= j < nb.len() && (#[trigger] nb[j]).0@ == k {
                let j = choose|j: int| 0 <= j < nb.len() && (#[trigger] nb[j]).0@ == k;
                assert(boards[j].0@ == k);
            }
        }
    }
}

/// Adding the entry of an absent key.
proof fn lemma_cached_push(boards: Seq<(String, Leaderboard)>, key: String, board: Leaderboard)
    requires
        keys_distinct(boards),
        forall|i: int| 0 <= i < boards.len() ==> (#[trigger] boards[i]).0@ != key@,
    ensures
        keys_distinct(boards.push((key, board))),
        forall|k: Seq<char>|
            #[trigger] cached(boards.push((key, board)), k) == if k == key@ {
                Some(board)
            } else {
                cached(boards, k)
            },
{
    let nb = boards.push((key, board));
    let n = boards.len() as int;
    assert forall|a: int, b: int| 0 <= a < b < nb.len() implies (#[trigger] nb[a]).0@ != (
    #[trigger] nb[b]).0@ by {
        if b == n {
            assert(boards[a].0@ != key@);
        } else {
            assert(boards[a].0@ != boards[b].0@);
        }
    }
    assert forall|k: Seq<char>|
        #[trigger] cached(nb, k) == if k == key@ {
            Some(board)
        } else {
            cached(boards, k)
        } by {
        if k == key@ {
            lemma_cached_at(nb, n);
        } else if exists|j: int| 0 <= j < boards.len() && (#[trigger] boards[j]).0@ == k {
            let j = choose|j: int| 0 <= j < boards.len() && (#[trigger] boards[j]).0@ == k;
            lemma_cached_at(boards, j);
            lemma_cached_at(nb, j);
        } else {
            if exists|j: int| 0 <= j < nb.len() && (#[trigger] nb[j]).0@ == k {
                let j = choose|j: int| 0 <= j < nb.len() && (#[trigger] nb[j]).0@ == k;
                assert(j < n);
                assert(boards[j].0@ == k);
            }
        }
    }
}

/// Whether one of the strings reads `k`.
pub open spec fn has_text(v: Seq<String>, k: Seq<char>) -> bool {
    exists|j: int| 0 <= j < v.len() && (#[trigger] v[j])@ == k
}

/// Appending a string adds exactly its text.
proof fn lemma_has_text_push(v: Seq<String>, s: String)
    ensures
        forall|k: Seq<char>| #[trigger] has_text(v.push(s), k) == (has_text(v, k) || k == s@),
{
    assert forall|k: Seq<char>| #[trigger] has_text(v.push(s), k) == (has_text(v, k) || k == s@) by {
        if has_text(v, k) {
            let j = choose|j: int| 0 <= j < v.len() && (#[trigger] v[j])@ == k;
            assert(v.push(s)[j] == v[j]);
        }
        if k == s@ {
            assert(v.push(s)[v.len() as int] == s);
        }
        if has_text(v.push(s), k) {
            let j = choose|j: int| 0 <= j < v.push(s).len() && (#[trigger] v.push(s)[j])@ == k;
            if j < v.len() {
                assert(v[j] == v.push(s)[j]);
            }
        }
    }
}

/// The queue without the run `id`.
pub open spec fn without(q: Seq<PendingSubmission>, id: u64) -> Seq<PendingSubmission>
    decreases q.len(),
{
    if q.len() == 0 {
        q
    } else {
        let rest = without(q.drop_last(), id);
        if q.last().id == id {
            rest
        } else {
            rest.push(q.last())
        }
    }
}

/// Whether the queue holds run `id`.
pub open spec fn queued(q: Seq<PendingSubmission>, id: u64) -> bool {
    exists|i: int| 0 <= i < q.len() && (#[trigger] q[i]).id == id
}

/// The first id above every queued one (0 for an empty queue).
pub open spec fn next_free_id(q: Seq<PendingSubmission>) -> int
    decreases q.len(),
{
    if q.len() == 0 {
        0
    } else {
        let r = next_free_id(q.drop_last());
        if q.last().id + 1 > r {
            q.last().id + 1
        } else {
            r
        }
    }
}

/// `s` without its trailing slashes.
pub open spec fn trim_slashes(s: Seq<char>) -> Seq<char>
    decreases s.len(),
{
    if s.len() > 0 && s.last() == '/' {
        trim_slashes(s.drop_last())
    } else {
        s
    }
}

/// The server path a run is posted to.
pub open spec fn submit_path(job: PendingSubmission) -> Seq<char> {
    if job.daily {
        "challenge/highscores"@
    } else {
        "highscores/"@ + job.mode@
    }
}

/// The URL of a server path.
pub open spec fn url_of(base: Seq<char>, path: Seq<char>) -> Seq<char> {
    trim_slashes(base) + "/"@ + path
}

pub struct Online {
    /// Server base URL, or `None` when networking is disabled.
    base: Option<String>,
    boards: Vec<(String, Leaderboard)>,
    fetching: Vec<String>,
    in_flight: Vec<u64>,
    pending: Vec<PendingSubmission>,
    next_id: u64,
    challenge: Option<DailyChallenge>,
    reachability: Reachability,
    /// Time of the last queue retry, in milliseconds.
    last_retry: Option<u64>,
}

impl Online {
    pub closed spec fn base_view(&self) -> Option<Seq<char>> {
        match self.base {
            Some(b) => Some(b@),
            None => None,
        }
    }

    pub closed spec fn board_view(&self, key: Seq<char>) -> Option<Leaderboard> {
        cached(self.boards@, key)
    }

    pub closed spec fn is_fetching(&self, key: Seq<char>) -> bool {
        has_text(self.fetching@, key)
    }

    pub closed spec fn is_in_flight(&self, id: u64) -> bool {
        self.in_flight@.contains(id)
    }

    /// The ids of the queued runs not under way, oldest first.
    pub closed spec fn unsent(&self) -> Seq<u64> {
        Seq::new(self.pending@.len(), |i: int| self.pending@[i].id).filter(
            |x: u64| !self.in_flight@.contains(x),
        )
    }

    pub closed spec fn queue(&self) -> Seq<PendingSubmission> {
        self.pending@
    }

    pub closed spec fn next_id_view(&self) -> u64 {
        self.next_id
    }

    pub closed spec fn challenge_view(&self) -> Option<DailyChallenge> {
        self.challenge
    }

    pub closed spec fn reach_view(&self) -> Reachability {
        self.reachability
    }

    pub closed spec fn last_retry_view(&self) -> Option<u64> {
        self.last_retry
    }

    /// Cached leaderboards have distinct keys, every run under way is still
    /// queued, and every queued id lies below the next one handed out.
    pub closed spec fn wf(&self) -> bool {
        &&& keys_distinct(self.boards@)
        &&& forall|i: int|
            0 <= i < self.in_flight@.len() ==> queued(self.pending@, #[trigger] self.in_flight@[i])
        &&& forall|i: int| 0 <= i < self.pending@.len() ==> (#[trigger] self.pending@[i]).id < self.next_id
    }

    /// Networking state for a server `base` (or none) and the runs left
    /// queued by an earlier session.
    pub fn new(base: Option<String>, pending: Vec<PendingSubmission>) -> (o: Online)
        requires
            forall|i: int| 0 <= i < pending@.len() ==> (#[trigger] pending@[i]).id < u64::MAX,
        ensures
            o.wf(),
            o.base_view() == (match base {
                Some(b) => Some(b@),
                None => None::<Seq<char>>,
            }),
            forall|k: Seq<char>| #[trigger] o.board_view(k) is None && !o.is_fetching(k),
            forall|id: u64| !#[trigger] o.is_in_flight(id),
            o.queue() == pending@,
            o.next_id_view() == next_free_id(pending@),
            o.challenge_view() is None,
            o.reach_view() == Reachability::Unknown,
            o.last_retry_view() is None,
    {
        let mut next_id: u64 = 0;
        let mut i: usize = 0;
        while i < pending.len()
            invariant
                0 <= i <= pending@.len(),
                forall|j: int| 0 <= j < pending@.len() ==> (#[trigger] pending@[j]).id < u64::MAX,
                next_id == next_free_id(pending@.subrange(0, i as int)),
                forall|j: int| 0 <= j < i ==> (#[trigger] pending@[j]).id < next_id,
            decreases pending@.len() - i,
        {
            proof {
                assert(pending@.subrange(0, i + 1).drop_last() =~= pending@.subrange(0, i as int));
            }
            let id = pending[i].id;
            if id + 1 > next_id {
                next_id = id + 1;
            }
            i += 1;
        }
        proof {
            assert(pending@.subrange(0, pending@.len() as int) =~= pending@);
        }
        Online {
            base,
            boards: Vec::new(),
            fetching: Vec::new(),
            in_flight: Vec::new(),
            pending,
            next_id,
            challenge: None,
            reachability: Reachability::Unknown,
            last_retry: None,
        }
    }

    /// Whether a server is configured at all.
    pub fn enabled(&self) -> (r: bool)
        ensures
            r == self.base_view() is Some,
    {
        self.base.is_some()
    }

    pub fn reachability(&self) -> (r: Reachability)
        ensures
            r == self.reach_view(),
    {
        self.reachability
    }

    /// The runs awaiting submission, oldest first.
    pub fn pending(&self) -> (q: &[PendingSubmission])
        ensures
            q@ == self.queue(),
    {
        self.pending.as_slice()
    }

    /// The id the next queued run gets.
    pub fn next_id(&self) -> (id: u64)
        ensures
            id == self.next_id_view(),
    {
        self.next_id
    }

    pub fn challenge(&self) -> (c: Option<&DailyChallenge>)
        ensures
            c matches Some(x) ==> self.challenge_view() == Some(*x),
            c is None ==> self.challenge_view() is None,
    {
        match &self.challenge {
            Some(c) => Some(c),
            None => None,
        }
    }

    /// Position of a cached leaderboard.
    fn find_board(&self, key: &str) -> (r: Option<usize>)
        requires
            self.wf(),
        ensures
            r matches Some(i) ==> i < self.boards@.len() && self.boards@[i as int].0@ == key@
                && self.board_view(key@) == Some(self.boards@[i as int].1),
            r is None ==> self.board_view(key@) is None && forall|i: int|
                0 <= i < self.boards@.len() ==> (#[trigger] self.boards@[i]).0@ != key@,
    {
        let mut i: usize = 0;
        while i < self.boards.len()
            invariant
                self.wf(),
                0 <= i <= self.boards@.len(),
                forall|j: int| 0 <= j < i ==> (#[trigger] self.boards@[j]).0@ != key@,
            decreases self.boards@.len() - i,
        {
            if str_equals(self.boards[i].0.as_str(), key) {
                proof {
                    lemma_cached_at(self.boards@, i as int);
                }
                return Some(i);
            }
            i += 1;
        }
        None
    }

    /// The cached leaderboard of a mode (or of the daily challenge).
    pub fn board(&self, mode: &str) -> (b: Option<&Leaderboard>)
        requires
            self.wf(),
        ensures
            b matches Some(x) ==> self.board_view(mode@) == Some(*x),
            b is None ==> self.board_view(mode@) is None,
    {
        match self.find_board(mode) {
            Some(i) => Some(&self.boards[i].1),
            None => None,
        }
    }

    /// Cache a leaderboard, replacing an older one under the same key.
    fn store_board(&mut self, key: String, board: Leaderboard)
        requires
            old(self).wf(),
        ensures
            final(self).wf(),
            forall|k: Seq<char>|
                #[trigger] final(self).board_view(k) == if k == key@ {
                    Some(board)
                } else {
                    old(self).board_view(k)
                },
            final(self).base == old(self).base,
            final(self).fetching == old(self).fetching,
            final(self).in_flight == old(self).in_flight,
            final(self).pending == old(self).pending,
            final(self).next_id == old(self).next_id,
            final(self).challenge == old(self).challenge,
            final(self).reachability == old(self).reachability,
            final(self).last_retry == old(self).last_retry,
    {
        let ghost before = self.boards@;
        match self.find_board(key.as_str()) {
            Some(i) => {
                proof {
                    lemma_cached_replace(before, i as int, key, board);
                }
                self.boards.set(i, (key, board));
            },
            None => {
                proof {
                    lemma_cached_push(before, key, board);
                }
                self.boards.push((key, board));
            },
        }
    }

    /// Forget that a fetch of `key` is under way.
    fn stop_fetching(&mut self, key: &str)
        ensures
            forall|k: Seq<char>|
                #[trigger] has_text(final(self).fetching@, k) == (has_text(old(self).fetching@, k) && k
                    != key@),
            final(self).base == old(self).base,
            final(self).boards == old(self).boards,
            final(self).in_flight == old(self).in_flight,
            final(self).pending == old(self).pending,
            final(self).next_id == old(self).next_id,
            final(self).challenge == old(self).challenge,
            final(self).reachability == old(self).reachability,
            final(self).last_retry == old(self).last_retry,
    {
        let mut rest: Vec<String> = Vec::new();
        let ghost orig = self.fetching@;
        let mut i: usize = 0;
        while i < self.fetching.len()
            invariant
                self.fetching@ == orig,
                0 <= i <= orig.len(),
                forall|k: Seq<char>|
                    #[trigger] has_text(rest@, k) == (has_text(orig.subrange(0, i as int), k) && k != key@),
            decreases orig.len() - i,
        {
            let ghost r0 = rest@;
            let ghost pre = orig.subrange(0, i as int);
            let ghost pre1 = orig.subrange(0, i + 1);
            proof {
                assert(pre1 =~= pre.push(orig[i as int]));
                lemma_has_text_push(pre, orig[i as int]);
            }
            if !str_equals(self.fetching[i].as_str(), key) {
                let s = self.fetching[i].clone();
                rest.push(s);
                proof {
                    lemma_has_text_push(r0, s);
                }
            }
            i += 1;
        }
        proof {
            assert(orig.subrange(0, orig.len() as int) =~= orig);
        }
        self.fetching = rest;
    }

    /// Forget that run `id` is under way.
    fn stop_sending(&mut self, id: u64)
        ensures
            forall|x: u64|
                #[trigger] final(self).in_flight@.contains(x) == (old(self).in_flight@.contains(x) && x
                    != id),
            final(self).base == old(self).base,
            final(self).boards == old(self).boards,
            final(self).fetching == old(self).fetching,
            final(self).pending == old(self).pending,
            final(self).next_id == old(self).next_id,
            final(self).challenge == old(self).challenge,
            final(self).reachability == old(self).reachability,
            final(self).last_retry == old(self).last_retry,
    {
        broadcast use vstd::seq_lib::group_filter_ensures;

        let mut rest: Vec<u64> = Vec::new();
        let ghost orig = self.in_flight@;
        let mut i: usize = 0;
        while i < self.in_flight.len()
            invariant
                self.in_flight@ == orig,
                0 <= i <= orig.len(),
                rest@ == orig.subrange(0, i as int).filter(|x: u64| x != id),
            decreases orig.len() - i,
        {
            let x = self.in_flight[i];
            proof {
                assert(orig.subrange(0, i + 1) =~= orig.subrange(0, i as int).push(x));
                orig.subrange(0, i as int).lemma_filter_push(x, |x: u64| x != id);
            }
            if x != id {
                rest.push(x);
            }
            i += 1;
        }
        proof {
            assert(orig.subrange(0, orig.len() as int) =~= orig);
        }
        self.in_flight = rest;
        proof {
            assert forall|x: u64| #[trigger] self.in_flight@.contains(x) == (orig.contains(x) && x != id) by {
                if orig.contains(x) && x != id {
                    let j = choose|j: int| 0 <= j < orig.len() && orig[j] == x;
                    orig.lemma_filter_contains(|x: u64| x != id, j);
                }
                if self.in_flight@.contains(x) {
                    let j = choose|j: int| 0 <= j < self.in_flight@.len() && self.in_flight@[j] == x;
                    orig.lemma_filter_pred(|x: u64| x != id, j);
                    orig.lemma_filter_contains_rev(|x: u64| x != id, x);
                }
            }
        }
    }

    /// Drop run `id` from the queue.
    fn dequeue(&mut self, id: u64)
        ensures
            final(self).pending@ == without(old(self).pending@, id),
            final(self).base == old(self).base,
            final(self).boards == old(self).boards,
            final(self).fetching == old(self).fetching,
            final(self).in_flight == old(self).in_flight,
            final(self).next_id == old(self).next_id,
            final(self).challenge == old(self).challenge,
            final(self).reachability == old(self).reachability,
            final(self).last_retry == old(self).last_retry,
    {
        let ghost orig = self.pending@;
        let mut rest: Vec<PendingSubmission> = Vec::new();
        std::mem::swap(&mut rest, &mut self.pending);
        let mut kept: Vec<PendingSubmission> = Vec::new();
        let mut k: usize = 0;
        let n = rest.len();
        while rest.len() > 0
            invariant
                n == orig.len(),
                0 <= k <= n,
                rest@ == orig.subrange(k as int, n as int),
                kept@ == without(orig.subrange(0, k as int), id),
            decreases rest@.len(),
        {
            let job = rest.remove(0);
            proof {
                assert(job == orig[k as int]);
                assert(orig.subrange(0, k + 1).drop_last() =~= orig.subrange(0, k as int));
                assert(orig.subrange(0, k + 1).last() == job);
                assert(rest@ =~= orig.subrange(k + 1, n as int));
            }
            if job.id != id {
                kept.push(job);
            }
            k += 1;
        }
        proof {
            assert(orig.subrange(0, n as int) =~= orig);
        }
        self.pending = kept;
    }

    /// Take in the result of a finished request: a fetched or re-sent
    /// leaderboard is cached, an accepted run leaves the queue, a failed
    /// send keeps it queued for a later retry.
    pub fn receive(&mut self, msg: Inbox)
        requires
            old(self).wf(),
        ensures
            final(self).wf(),
            final(self).base_view() == old(self).base_view(),
            final(self).next_id_view() == old(self).next_id_view(),
            final(self).last_retry_view() == old(self).last_retry_view(),
            match msg {
                Inbox::Fetched { mode, board } => {
                    &&& final(self).reach_view() == Reachability::Online
                    &&& forall|k: Seq<char>|
                        #[trigger] final(self).board_view(k) == if k == mode@ {
                            Some(board)
                        } else {
                            old(self).board_view(k)
                        }
                    &&& forall|k: Seq<char>|
                        #[trigger] final(self).is_fetching(k) == (old(self).is_fetching(k) && k != mode@)
                    &&& forall|x: u64| #[trigger] final(self).is_in_flight(x) == old(self).is_in_flight(x)
                    &&& final(self).queue() == old(self).queue()
                    &&& final(self).challenge_view() == old(self).challenge_view()
                },
                Inbox::Submitted { id, mode, board } => {
                    &&& final(self).reach_view() == Reachability::Online
                    &&& forall|k: Seq<char>|
                        #[trigger] final(self).board_view(k) == if k == mode@ {
                            Some(board)
                        } else {
                            old(self).board_view(k)
                        }
                    &&& forall|k: Seq<char>| #[trigger] final(self).is_fetching(k) == old(self).is_fetching(k)
                    &&& forall|x: u64|
                        #[trigger] final(self).is_in_flight(x) == (old(self).is_in_flight(x) && x != id)
                    &&& final(self).queue() == without(old(self).queue(), id)
                    &&& final(self).challenge_view() == old(self).challenge_view()
                },
                Inbox::SubmitFailed { id } => {
                    &&& final(self).reach_view() == Reachability::Offline
                    &&& forall|k: Seq<char>| #[trigger] final(self).board_view(k) == old(self).board_view(k)
                    &&& forall|k: Seq<char>| #[trigger] final(self).is_fetching(k) == old(self).is_fetching(k)
                    &&& forall|x: u64|
                        #[trigger] final(self).is_in_flight(x) == (old(self).is_in_flight(x) && x != id)
                    &&& final(self).queue() == old(self).queue()
                    &&& final(self).challenge_view() == old(self).challenge_view()
                },
                Inbox::Challenge(c) => {
                    &&& final(self).reach_view() == Reachability::Online
                    &&& forall|k: Seq<char>| #[trigger] final(self).board_view(k) == old(self).board_view(k)
                    &&& forall|k: Seq<char>| #[trigger] final(self).is_fetching(k) == old(self).is_fetching(k)
                    &&& forall|x: u64| #[trigger] final(self).is_in_flight(x) == old(self).is_in_flight(x)
                    &&& final(self).queue() == old(self).queue()
                    &&& final(self).challenge_view() == Some(c)
                },
            },
    {
        match msg {
            Inbox::Fetched { mode, board } => {
                let ghost key = mode@;
                let ghost bv = board;
                let ghost f0 = self.fetching@;
                let ghost b0 = self.boards@;
                self.reachability = Reachability::Online;
                self.stop_fetching(mode.as_str());
                let ghost f1 = self.fetching@;
                assert(self.boards@ == b0);
                self.store_board(mode, board);
                proof {
                    assert forall|k: Seq<char>| #[trigger] self.board_view(k) == if k == key {
                        Some(bv)
                    } else {
                        cached(b0, k)
                    } by {}
                    assert forall|k: Seq<char>| #[trigger] self.is_fetching(k) == (has_text(f0, k) && k != key) by {
                        assert(has_text(f1, k) == (has_text(f0, k) && k != key));
                    }
                }
            },
            Inbox::Submitted { id, mode, board } => {
                let ghost f0 = self.in_flight@;
                let ghost q0 = self.pending@;
                proof {
                    assert(forall|i: int| 0 <= i < f0.len() ==> queued(q0, #[trigger] f0[i]));
                }
                self.reachability = Reachability::Online;
                self.stop_sending(id);
                self.dequeue(id);
                proof {
                    assert forall|i: int|
                        0 <= i < self.in_flight@.len() implies queued(
                        self.pending@,
                        #[trigger] self.in_flight@[i],
                    ) by {
                        let x = self.in_flight@[i];
                        assert(self.in_flight@.contains(x));
                        assert(f0.contains(x));
                        let j = choose|j: int| 0 <= j < f0.len() && f0[j] == x;
                        assert(queued(q0, f0[j]));
                        lemma_without_keeps(q0, id, x);
                    }
                    lemma_without_ids(q0, id, self.next_id);
                }
                self.store_board(mode, board);
            },
            Inbox::SubmitFailed { id } => {
                let ghost f0 = self.in_flight@;
                proof {
                    assert(forall|i: int| 0 <= i < f0.len() ==> queued(self.pending@, #[trigger] f0[i]));
                }
                self.reachability = Reachability::Offline;
                self.stop_sending(id);
                proof {
                    assert forall|i: int|
                        0 <= i < self.in_flight@.len() implies queued(
                        self.pending@,
                        #[trigger] self.in_flight@[i],
                    ) by {
                        let x = self.in_flight@[i];
                        assert(self.in_flight@.contains(x));
                        assert(f0.contains(x));
                        let j = choose|j: int| 0 <= j < f0.len() && f0[j] == x;
                        assert(queued(self.pending@, f0[j]));
                    }
                }
            },
            Inbox::Challenge(c) => {
                self.reachability = Reachability::Online;
                self.challenge = Some(c);
            },
        }
    }

    /// Whether a fetch of `key` is under way.
    fn fetching_has(&self, key: &str) -> (r: bool)
        ensures
            r == self.is_fetching(key@),
    {
        let mut i: usize = 0;
        while i < self.fetching.len()
            invariant
                0 <= i <= self.fetching@.len(),
                forall|j: int| 0 <= j < i ==> (#[trigger] self.fetching@[j])@ != key@,
            decreases self.fetching@.len() - i,
        {
            if str_equals(self.fetching[i].as_str(), key) {
                proof {
                    assert(self.fetching@[i as int]@ == key@);
                }
                return true;
            }
            i += 1;
        }
        false
    }

    /// Position of queued run `id`.
    fn find_job(&self, id: u64) -> (r: Option<usize>)
        ensures
            r matches Some(i) ==> i < self.pending@.len() && self.pending@[i as int].id == id,
            r is None ==> !queued(self.pending@, id),
    {
        let mut i: usize = 0;
        while i < self.pending.len()
            invariant
                0 <= i <= self.pending@.len(),
                forall|j: int| 0 <= j < i ==> (#[trigger] self.pending@[j]).id != id,
            decreases self.pending@.len() - i,
        {
            if self.pending[i].id == id {
                return Some(i);
            }
            i += 1;
        }
        None
    }

    /// The ids of the queued runs not under way, oldest first.
    fn unsent_ids(&self) -> (ids: Vec<u64>)
        ensures
            ids@ == self.unsent(),
    {
        broadcast use vstd::seq_lib::group_filter_ensures;

        let mut ids: Vec<u64> = Vec::new();
        let ghost all = Seq::new(self.pending@.len(), |i: int| self.pending@[i].id);
        let ghost pred = |x: u64| !self.in_flight@.contains(x);
        let mut i: usize = 0;
        while i < self.pending.len()
            invariant
                all == Seq::new(self.pending@.len(), |i: int| self.pending@[i].id),
                pred == (|x: u64| !self.in_flight@.contains(x)),
                0 <= i <= self.pending@.len(),
                ids@ == all.subrange(0, i as int).filter(pred),
            decreases self.pending@.len() - i,
        {
            let id = self.pending[i].id;
            proof {
                assert(all.subrange(0, i + 1) =~= all.subrange(0, i as int).push(id));
                all.subrange(0, i as int).lemma_filter_push(id, pred);
            }
            if !vec_contains(&self.in_flight, id) {
                ids.push(id);
            }
            i += 1;
        }
        proof {
            assert(all.subrange(0, self.pending@.len() as int) =~= all);
        }
        ids
    }

    /// Whether to request the leaderboard cached under `key` now: only with
    /// a server, when it is not cached yet and no fetch of it is under way.
    /// A request to be made is noted as under way.
    pub fn start_fetch(&mut self, key: &str) -> (go: bool)
        requires
            old(self).wf(),
        ensures
            final(self).wf(),
            go == (old(self).base_view() is Some && !old(self).is_fetching(key@) && old(self).board_view(
                key@,
            ) is None),
            forall|k: Seq<char>|
                #[trigger] final(self).is_fetching(k) == (old(self).is_fetching(k) || (go && k == key@)),
            forall|k: Seq<char>| #[trigger] final(self).board_view(k) == old(self).board_view(k),
            forall|x: u64| #[trigger] final(self).is_in_flight(x) == old(self).is_in_flight(x),
            final(self).queue() == old(self).queue(),
            final(self).base_view() == old(self).base_view(),
            final(self).next_id_view() == old(self).next_id_view(),
            final(self).challenge_view() == old(self).challenge_view(),
            final(self).reach_view() == old(self).reach_view(),
            final(self).last_retry_view() == old(self).last_retry_view(),
    {
        if self.base.is_none() || self.fetching_has(key) {
            return false;
        }
        if self.find_board(key).is_some() {
            return false;
        }
        let owned = key.to_owned();
        let ghost f0 = self.fetching@;
        self.fetching.push(owned);
        proof {
            lemma_has_text_push(f0, owned);
        }
        true
    }

    /// Queue a run for submission. With a server, the returned id is to be
    /// sent at once (see [`Online::start_send`]).
    pub fn submit(&mut self, mode: String, daily: bool, submission: ScoreSubmission) -> (send: Option<u64>)
        requires
            old(self).wf(),
            old(self).next_id_view() < u64::MAX,
        ensures
            final(self).wf(),
            final(self).queue() == old(self).queue().push(
                PendingSubmission { id: old(self).next_id_view(), mode, daily, submission },
            ),
            !queued(old(self).queue(), old(self).next_id_view()),
            final(self).next_id_view() == old(self).next_id_view() + 1,
            send == if old(self).base_view() is Some {
                Some(old(self).next_id_view())
            } else {
                None::<u64>
            },
            forall|k: Seq<char>| #[trigger] final(self).board_view(k) == old(self).board_view(k),
            forall|k: Seq<char>| #[trigger] final(self).is_fetching(k) == old(self).is_fetching(k),
            forall|x: u64| #[trigger] final(self).is_in_flight(x) == old(self).is_in_flight(x),
            final(self).base_view() == old(self).base_view(),
            final(self).challenge_view() == old(self).challenge_view(),
            final(self).reach_view() == old(self).reach_view(),
            final(self).last_retry_view() == old(self).last_retry_view(),
    {
        let id = self.next_id;
        self.next_id = self.next_id + 1;
        let ghost q0 = self.pending@;
        self.pending.push(PendingSubmission { id, mode, daily, submission });
        proof {
            assert forall|i: int|
                0 <= i < self.in_flight@.len() implies queued(self.pending@, #[trigger] self.in_flight@[i]) by {
                assert(queued(q0, self.in_flight@[i]));
                let j = choose|j: int| 0 <= j < q0.len() && (#[trigger] q0[j]).id == self.in_flight@[i];
                assert(self.pending@[j] == q0[j]);
            }
            if queued(q0, id) {
                let j = choose|j: int| 0 <= j < q0.len() && (#[trigger] q0[j]).id == id;
                assert(q0[j].id < id);
            }
        }
        if self.base.is_some() {
            Some(id)
        } else {
            None
        }
    }

    /// The queued runs to send again at time `now` (milliseconds): none
    /// without a server or with an empty queue, none within
    /// [`RETRY_INTERVAL_MS`] of the last retry, otherwise every queued run
    /// not already under way, oldest first. A retry is noted at `now`.
    pub fn due_for_retry(&mut self, now: u64) -> (ids: Vec<u64>)
        requires
            old(self).wf(),
        ensures
            final(self).wf(),
            ({
                let skip = old(self).base_view() is None || old(self).queue().len() == 0 || match old(
                    self,
                ).last_retry_view() {
                    Some(t) => now < t || now - t < RETRY_INTERVAL_MS,
                    None => false,
                };
                &&& skip ==> ids@.len() == 0 && final(self).last_retry_view() == old(self).last_retry_view()
                &&& !skip ==> final(self).last_retry_view() == Some(now) && ids@ == old(self).unsent()
            }),
            forall|k: Seq<char>| #[trigger] final(self).board_view(k) == old(self).board_view(k),
            forall|k: Seq<char>| #[trigger] final(self).is_fetching(k) == old(self).is_fetching(k),
            forall|x: u64| #[trigger] final(self).is_in_flight(x) == old(self).is_in_flight(x),
            final(self).queue() == old(self).queue(),
            final(self).base_view() == old(self).base_view(),
            final(self).next_id_view() == old(self).next_id_view(),
            final(self).challenge_view() == old(self).challenge_view(),
            final(self).reach_view() == old(self).reach_view(),
    {
        broadcast use vstd::seq_lib::group_filter_ensures;

        if self.base.is_none() || self.pending.len() == 0 {
            return Vec::new();
        }
        match self.last_retry {
            Some(t) => {
                if now < t || now - t < RETRY_INTERVAL_MS {
                    return Vec::new();
                }
            },
            None => {},
        }
        let ids = self.unsent_ids();
        self.last_retry = Some(now);
        ids
    }

    /// Note that queued run `id` is being sent and give the URL to post it
    /// to; `None` (and nothing noted) without a server or for an id that is
    /// not queued.
    pub fn start_send(&mut self, id: u64) -> (url: Option<String>)
        requires
            old(self).wf(),
        ensures
            final(self).wf(),
            url is Some <==> old(self).base_view() is Some && queued(old(self).queue(), id),
            url matches Some(u) ==> exists|i: int|
                0 <= i < old(self).queue().len() && (#[trigger] old(self).queue()[i]).id == id
                    && u@ == url_of(old(self).base_view()->Some_0, submit_path(old(self).queue()[i])),
            forall|x: u64|
                #[trigger] final(self).is_in_flight(x) == (old(self).is_in_flight(x) || (url is Some
                    && x == id)),
            forall|k: Seq<char>| #[trigger] final(self).board_view(k) == old(self).board_view(k),
            forall|k: Seq<char>| #[trigger] final(self).is_fetching(k) == old(self).is_fetching(k),
            final(self).queue() == old(self).queue(),
            final(self).base_view() == old(self).base_view(),
            final(self).next_id_view() == old(self).next_id_view(),
            final(self).challenge_view() == old(self).challenge_view(),
            final(self).reach_view() == old(self).reach_view(),
            final(self).last_retry_view() == old(self).last_retry_view(),
    {
        let i = match self.find_job(id) {
            Some(i) => i,
            None => {
                return None;
            },
        };
        let mut url = String::new();
        proof {
            assert(url@ =~= Seq::<char>::empty());
        }
        match &self.base {
            Some(b) => push_trimmed(&mut url, b.as_str()),
            None => {
                return None;
            },
        }
        push_str(&mut url, "/");
        if self.pending[i].daily {
            push_str(&mut url, "challenge/highscores");
        } else {
            push_str(&mut url, "highscores/");
            push_str(&mut url, self.pending[i].mode.as_str());
        }
        proof {
            let job = self.pending@[i as int];
            assert(url@ =~= url_of(self.base_view()->Some_0, submit_path(job)));
        }
        let ghost f0 = self.in_flight@;
        if !vec_contains(&self.in_flight, id) {
            self.in_flight.push(id);
        }
        proof {
            assert forall|x: u64| #[trigger] self.in_flight@.contains(x) == (f0.contains(x) || x == id) by {
                if x == id && !f0.contains(x) {
                    assert(self.in_flight@[self.in_flight@.len() - 1] == x);
                }
                if f0.contains(x) {
                    let j = choose|j: int| 0 <= j < f0.len() && f0[j] == x;
                    assert(self.in_flight@[j] == x);
                }
            }
            assert forall|k: int| 0 <= k < self.in_flight@.len() implies queued(
                self.pending@,
                #[trigger] self.in_flight@[k],
            ) by {
                if k < f0.len() {
                    assert(self.in_flight@[k] == f0[k]);
                } else {
                    assert(self.pending@[i as int].id == id);
                }
            }
        }
        Some(url)
    }
}

/// Whether `v` holds `x`.
fn vec_contains(v: &Vec<u64>, x: u64) -> (r: bool)
    ensures
        r == v@.contains(x),
{
    let mut i: usize = 0;
    while i < v.len()
        invariant
            0 <= i <= v@.len(),
            forall|j: int| 0 <= j < i ==> v@[j] != x,
        decreases v@.len() - i,
    {
        if v[i] == x {
            return true;
        }
        i += 1;
    }
    false
}

/// Append `t` without its trailing slashes to `s`.
fn push_trimmed(s: &mut String, t: &str)
    ensures
        final(s)@ == old(s)@ + trim_slashes(t@),
{
    let mut end = t.unicode_len();
    proof {
        assert(t@.subrange(0, end as int) =~= t@);
    }
    while end > 0 && t.get_char(end - 1) == '/'
        invariant
            0 <= end <= t@.len(),
            trim_slashes(t@.subrange(0, end as int)) == trim_slashes(t@),
        decreases end,
    {
        proof {
            assert(t@.subrange(0, end as int).drop_last() =~= t@.subrange(0, end - 1));
        }
        end -= 1;
    }
    let head = t.substring_char(0, end);
    proof {
        assert(head@ == trim_slashes(t@));
    }
    push_str(s, head);
}

/// A run other than `id` stays queued when `id` leaves the queue.
proof fn lemma_without_keeps(q: Seq<PendingSubmission>, id: u64, x: u64)
    requires
        queued(q, x),
        x != id,
    ensures
        queued(without(q, id), x),
    decreases q.len(),
{
    let j = choose|j: int| 0 <= j < q.len() && (#[trigger] q[j]).id == x;
    let rest = without(q.drop_last(), id);
    if j == q.len() - 1 {
        assert(without(q, id) == rest.push(q.last()));
        assert(without(q, id)[rest.len() as int].id == x);
    } else {
        assert(q.drop_last()[j].id == x);
        lemma_without_keeps(q.drop_last(), id, x);
        let k = choose|k: int| 0 <= k < rest.len() && (#[trigger] rest[k]).id == x;
        if q.last().id == id {
        } else {
            assert(without(q, id)[k] == rest[k]);
        }
    }
}

/// Every run left in the queue was in it before.
proof fn lemma_without_ids(q: Seq<PendingSubmission>, id: u64, bound: u64)
    requires
        forall|i: int| 0 <= i < q.len() ==> (#[trigger] q[i]).id < bound,
    ensures
        forall|i: int| 0 <= i < without(q, id).len() ==> (#[trigger] without(q, id)[i]).id < bound,
        without(q, id).len() <= q.len(),
    decreases q.len(),
{
    if q.len() > 0 {
        lemma_without_ids(q.drop_last(), id, bound);
        let rest = without(q.drop_last(), id);
        if q.last().id != id {
            assert forall|i: int| 0 <= i < without(q, id).len() implies (#[trigger] without(q, id)[i]).id < bound by {
                if i < rest.len() {
                    assert(without(q, id)[i] == rest[i]);
                }
            }
        }
    }
}

/// An accepted run leaves the queue and nothing else does: a run is never
/// lost before the server took it.
pub proof fn lemma_only_accepted_runs_leave(q: Seq<PendingSubmission>, id: u64, x: u64)
    requires
        queued(q, x),
    ensures
        queued(without(q, id), x) <==> x != id,
    decreases q.len(),
{
    if x != id {
        lemma_without_keeps(q, id, x);
    } else {
        lemma_without_drops(q, id);
    }
}

/// No run with the removed id is left.
proof fn lemma_without_drops(q: Seq<PendingSubmission>, id: u64)
    ensures
        !queued(without(q, id), id),
    decreases q.len(),
{
    if q.len() > 0 {
        lemma_without_drops(q.drop_last(), id);
        let rest = without(q.drop_last(), id);
        if q.last().id != id {
            if queued(without(q, id), id) {
                let k = choose|k: int| 0 <= k < without(q, id).len() && (#[trigger] without(q, id)[k]).id == id;
                if k < rest.len() {
                    assert(without(q, id)[k] == rest[k]);
                }
            }
        }
    }
}

} // verus!
