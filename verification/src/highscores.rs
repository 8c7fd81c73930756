//! Local highscore tables, one per game mode (boundary × field size × speed).
use vstd::prelude::*;

use crate::board::BoundaryMode;
use crate::settings::{dimensions_of, Settings, Speed};
use crate::text::{
    index_of_char, is_digit, lemma_index_of_char_at, lemma_signed_decimal_injective,
    lemma_signed_decimal_shape, push_char, push_decimal, push_str, signed_decimal, str_equals,
};

verus! {

pub const MAX_ENTRIES: usize = 10;

#[derive(Debug, Clone, PartialEq, Eq)]
pub struct Entry {
    pub name: String,
    pub score: u32,
    /// ISO date (UTC), e.g. "2026-06-12".
    pub date: String,
}

/// Scores never increase along the table.
pub open spec fn sorted_desc(t: Seq<Entry>) -> bool {
    forall|i: int, j: int| 0 <= i < j < t.len() ==> (#[trigger] t[i]).score >= (#[trigger] t[j]).score
}

/// Number of leading entries that rank at or above `score` (where a new
/// entry with that score is placed: after all equal scores).
pub open spec fn rank_of(t: Seq<Entry>, score: u32) -> int
    decreases t.len(),
{
    if t.len() == 0 {
        0
    } else if t[0].score >= score {
        1 + rank_of(t.drop_first(), score)
    } else {
        0
    }
}

/// The table after inserting `e`: placed behind every entry with an equal
/// or higher score, then cut to [`MAX_ENTRIES`].
pub open spec fn inserted(t: Seq<Entry>, e: Entry) -> Seq<Entry> {
    let k = rank_of(t, e.score);
    let full = t.subrange(0, k).push(e) + t.subrange(k, t.len() as int);
    if full.len() > MAX_ENTRIES {
        full.subrange(0, MAX_ENTRIES as int)
    } else {
        full
    }
}

/// Would `score` make it into table `t`?
pub open spec fn qualifies_spec(t: Seq<Entry>, score: u32) -> bool {
    score != 0 && (t.len() < MAX_ENTRIES || (t.len() > 0 && score > t.last().score))
}

pub struct Highscores {
    tables: Vec<(String, Vec<Entry>)>,
}

impl Highscores {
    /// Keys are distinct; every table is sorted by descending score and
    /// holds at most [`MAX_ENTRIES`] entries.
    pub closed spec fn wf(&self) -> bool {
        &&& forall|i: int, j: int|
            0 <= i < j < self.tables@.len() ==> (#[trigger] self.tables@[i]).0@ != (
            #[trigger] self.tables@[j]).0@
        &&& forall|i: int|
            0 <= i < self.tables@.len() ==> sorted_desc((#[trigger] self.tables@[i]).1@)
                && self.tables@[i].1@.len() <= MAX_ENTRIES
    }

    /// The table of a mode key (empty if the mode has none).
    pub closed spec fn table_of(&self, key: Seq<char>) -> Seq<Entry> {
        if exists|i: int| 0 <= i < self.tables@.len() && (#[trigger] self.tables@[i]).0@ == key {
            self.tables@[choose|i: int|
                0 <= i < self.tables@.len() && (#[trigger] self.tables@[i]).0@ == key].1@
        } else {
            Seq::empty()
        }
    }

    /// The mode keys with a table, in the order they were first used.
    pub closed spec fn key_list(&self) -> Seq<Seq<char>> {
        Seq::new(self.tables@.len(), |i: int| self.tables@[i].0@)
    }

    /// Position of a key among the tables, if present.
    fn find(&self, key: &str) -> (r: Option<usize>)
        requires
            self.wf(),
        ensures
            r matches Some(i) ==> i < self.tables@.len() && self.tables@[i as int].0@ == key@
                && self.table_of(key@) == self.tables@[i as int].1@,
            r is None ==> self.table_of(key@) == Seq::<Entry>::empty() && forall|i: int|
                0 <= i < self.tables@.len() ==> (#[trigger] self.tables@[i]).0@ != key@,
    {
        let mut i: usize = 0;
        while i < self.tables.len()
            invariant
                self.wf(),
                0 <= i <= self.tables@.len(),
                forall|j: int| 0 <= j < i ==> (#[trigger] self.tables@[j]).0@ != key@,
            decreases self.tables@.len() - i,
        {
            if str_equals(self.tables[i].0.as_str(), key) {
                proof {
                    lemma_table_of_at(*self, i as int);
                }
                return Some(i);
            }
            i += 1;
        }
        None
    }

    pub fn table(&self, key: &str) -> (t: &[Entry])
        requires
            self.wf(),
        ensures
            t@ == self.table_of(key@),
    {
        match self.find(key) {
            Some(i) => self.tables[i].1.as_slice(),
            None => &[],
        }
    }

    /// Would this score make it into the top list of its mode?
    pub fn qualifies(&self, key: &str, score: u32) -> (r: bool)
        requires
            self.wf(),
        ensures
            r == qualifies_spec(self.table_of(key@), score),
    {
        if score == 0 {
            return false;
        }
        let table = self.table(key);
        table.len() < MAX_ENTRIES || (table.len() > 0 && score > table[table.len() - 1].score)
    }

    pub fn insert(&mut self, key: &str, entry: Entry)
        requires
            old(self).wf(),
        ensures
            final(self).wf(),
            final(self).table_of(key@) == inserted(old(self).table_of(key@), entry),
            forall|k: Seq<char>| k != key@ ==> #[trigger] final(self).table_of(k) == old(self).table_of(k),
    {
        let ghost old_self = *self;
        match self.find(key) {
            Some(i) => {
                let mut pair = self.tables.remove(i);
                let ghost old_table = pair.1@;
                insert_sorted(&mut pair.1, entry);
                self.tables.insert(i, pair);
                proof {
                    assert forall|j: int| 0 <= j < self.tables@.len() && j != i implies self.tables@[j]
                        == old_self.tables@[j] by {}
                    assert(self.wf()) by {
                        assert forall|a: int, b: int|
                            0 <= a < b < self.tables@.len() implies (#[trigger] self.tables@[a]).0@
                            != (#[trigger] self.tables@[b]).0@ by {
                            assert(old_self.tables@[a].0@ != old_self.tables@[b].0@);
                        }
                    }
                    lemma_table_of_at(*self, i as int);
                    assert forall|k: Seq<char>| k != key@ implies #[trigger] self.table_of(k)
                        == old_self.table_of(k) by {
                        lemma_other_tables(old_self, *self, key@, k);
                    }
                }
            },
            None => {
                let mut table: Vec<Entry> = Vec::new();
                proof {
                    assert(table@ =~= old_self.table_of(key@));
                }
                insert_sorted(&mut table, entry);
                let mut owned = String::new();
                proof {
                    assert(owned@ =~= Seq::<char>::empty());
                }
                push_str(&mut owned, key);
                self.tables.push((owned, table));
                proof {
                    let n = old_self.tables@.len() as int;
                    assert(self.tables@[n].0@ =~= key@);
                    assert(self.wf()) by {
                        assert forall|a: int, b: int|
                            0 <= a < b < self.tables@.len() implies (#[trigger] self.tables@[a]).0@
                            != (#[trigger] self.tables@[b]).0@ by {
                            if b == n {
                                assert(old_self.tables@[a].0@ != key@);
                            } else {
                                assert(old_self.tables@[a].0@ != old_self.tables@[b].0@);
                            }
                        }
                    }
                    lemma_table_of_at(*self, n);
                    assert forall|k: Seq<char>| k != key@ implies #[trigger] self.table_of(k)
                        == old_self.table_of(k) by {
                        lemma_other_tables(old_self, *self, key@, k);
                    }
                }
            },
        }
    }
}

impl Default for Highscores {
    fn default() -> (h: Self)
        ensures
            h.wf(),
            forall|k: Seq<char>| #[trigger] h.table_of(k) == Seq::<Entry>::empty(),
    {
        Highscores { tables: Vec::new() }
    }
}

/// Append the characters of `t` to `s`.
/// Insert `e` behind all entries ranking at or above it, then cut the table
/// to [`MAX_ENTRIES`] (a stable descending sort of the table plus `e`).
fn insert_sorted(table: &mut Vec<Entry>, e: Entry)
    requires
        sorted_desc(old(table)@),
        old(table)@.len() <= MAX_ENTRIES,
    ensures
        final(table)@ == inserted(old(table)@, e),
        sorted_desc(final(table)@),
        final(table)@.len() <= MAX_ENTRIES,
{
    let ghost t = table@;
    let mut k: usize = 0;
    while k < table.len() && table[k].score >= e.score
        invariant
            table@ == t,
            0 <= k <= t.len(),
            forall|j: int| 0 <= j < k ==> (#[trigger] t[j]).score >= e.score,
        decreases t.len() - k,
    {
        k += 1;
    }
    proof {
        lemma_rank_of(t, e.score, k as int);
    }
    let ghost score = e.score;
    table.insert(k, e);
    proof {
        assert(table@ =~= t.subrange(0, k as int).push(table@[k as int]) + t.subrange(
            k as int,
            t.len() as int,
        ));
    }
    if table.len() > MAX_ENTRIES {
        table.truncate(MAX_ENTRIES);
    }
    proof {
        let full = t.subrange(0, k as int).push(table@[k as int]) + t.subrange(k as int, t.len() as int);
        assert forall|i: int, j: int| 0 <= i < j < table@.len() implies (#[trigger] table@[i]).score
            >= (#[trigger] table@[j]).score by {
            assert(table@[i] == full[i]);
            assert(table@[j] == full[j]);
            if j < k {
            } else if i < k && j == k {
            } else if i < k {
                assert(full[j] == t[j - 1]);
            } else if i == k {
                assert(full[j] == t[j - 1]);
            } else {
                assert(full[i] == t[i - 1]);
                assert(full[j] == t[j - 1]);
            }
        }
    }
}

/// `rank_of` counts the leading entries with a score at or above the given
/// one.
proof fn lemma_rank_of(t: Seq<Entry>, score: u32, k: int)
    requires
        0 <= k <= t.len(),
        forall|j: int| 0 <= j < k ==> (#[trigger] t[j]).score >= score,
        k == t.len() || t[k].score < score,
    ensures
        rank_of(t, score) == k,
    decreases k,
{
    if k > 0 {
        let r = t.drop_first();
        assert forall|j: int| 0 <= j < k - 1 implies (#[trigger] r[j]).score >= score by {
            assert(r[j] == t[j + 1]);
        }
        if k < t.len() {
            assert(r[k - 1] == t[k]);
        }
        lemma_rank_of(r, score, k - 1);
    }
}

/// In a well-formed set of tables, the table of a present key is the one
/// stored with it.
proof fn lemma_table_of_at(h: Highscores, i: int)
    requires
        h.wf(),
        0 <= i < h.tables@.len(),
    ensures
        h.table_of(h.tables@[i].0@) == h.tables@[i].1@,
{
    let key = h.tables@[i].0@;
    let k = choose|k: int| 0 <= k < h.tables@.len() && (#[trigger] h.tables@[k]).0@ == key;
    if k != i {
        if k < i {
            assert(h.tables@[k].0@ != h.tables@[i].0@);
        } else {
            assert(h.tables@[i].0@ != h.tables@[k].0@);
        }
    }
}

/// Changing or adding the table of `key` leaves all other keys' tables.
proof fn lemma_other_tables(old_h: Highscores, new_h: Highscores, key: Seq<char>, k: Seq<char>)
    requires
        old_h.wf(),
        new_h.wf(),
        k != key,
        old_h.tables@.len() <= new_h.tables@.len(),
        forall|j: int|
            0 <= j < new_h.tables@.len() && new_h.tables@[j].0@ != key ==> j < old_h.tables@.len()
                && new_h.tables@[j] == old_h.tables@[j],
        forall|j: int|
            0 <= j < old_h.tables@.len() && old_h.tables@[j].0@ != key ==> new_h.tables@[j]
                == old_h.tables@[j],
    ensures
        new_h.table_of(k) == old_h.table_of(k),
{
    if exists|j: int| 0 <= j < new_h.tables@.len() && (#[trigger] new_h.tables@[j]).0@ == k {
        let j = choose|j: int| 0 <= j < new_h.tables@.len() && (#[trigger] new_h.tables@[j]).0@ == k;
        lemma_table_of_at(new_h, j);
        lemma_table_of_at(old_h, j);
    } else if exists|j: int| 0 <= j < old_h.tables@.len() && (#[trigger] old_h.tables@[j]).0@ == k {
        let j = choose|j: int| 0 <= j < old_h.tables@.len() && (#[trigger] old_h.tables@[j]).0@ == k;
        assert(new_h.tables@[j] == old_h.tables@[j]);
    }
}

/// Word naming a boundary mode in mode keys.
pub open spec fn boundary_word(b: BoundaryMode) -> Seq<char> {
    match b {
        BoundaryMode::Walls => "walls"@,
        BoundaryMode::Periodic => "torus"@,
    }
}

/// Word naming a speed in mode keys.
pub open spec fn speed_word(s: Speed) -> Seq<char> {
    match s {
        Speed::Slow => "slow"@,
        Speed::Normal => "normal"@,
        Speed::Fast => "fast"@,
    }
}

/// The mode key of some settings: `{boundary}-{width}x{height}-{speed}`.
pub open spec fn mode_key_spec(s: Settings) -> Seq<char> {
    let (w, h) = dimensions_of(s);
    boundary_word(s.boundary) + "-"@ + signed_decimal(w as int) + "x"@ + signed_decimal(h as int)
        + "-"@ + speed_word(s.speed)
}

/// The width and height part `{width}x{height}` of a mode key.
pub open spec fn size_part(w: int, h: int) -> Seq<char> {
    signed_decimal(w) + "x"@ + signed_decimal(h)
}

/// A mode key is the boundary word, a dash, the size part, a dash and the
/// speed word.
pub(crate) proof fn lemma_mode_key_parts(s: Settings)
    ensures
        mode_key_spec(s) == boundary_word(s.boundary) + "-"@ + size_part(
            dimensions_of(s).0 as int,
            dimensions_of(s).1 as int,
        ) + "-"@ + speed_word(s.speed),
        boundary_word(s.boundary).len() == 5,
        mode_key_spec(s)[0] == boundary_word(s.boundary)[0],
        mode_key_spec(s).len() == 7 + size_part(dimensions_of(s).0 as int, dimensions_of(s).1 as int).len()
            + speed_word(s.speed).len(),
        mode_key_spec(s).last() == speed_word(s.speed).last(),
        mode_key_spec(s).subrange(
            6,
            6 + size_part(dimensions_of(s).0 as int, dimensions_of(s).1 as int).len() as int,
        ) == size_part(dimensions_of(s).0 as int, dimensions_of(s).1 as int),
{
    reveal_strlit("walls");
    reveal_strlit("torus");
    reveal_strlit("slow");
    reveal_strlit("normal");
    reveal_strlit("fast");
    reveal_strlit("-");
    reveal_strlit("x");
    let (w, h) = dimensions_of(s);
    let b = boundary_word(s.boundary);
    let m = size_part(w as int, h as int);
    let sp = speed_word(s.speed);
    let k = mode_key_spec(s);
    assert(k =~= b + "-"@ + m + "-"@ + sp);
    assert(k.subrange(6, 6 + m.len() as int) =~= m);
}

/// The size part determines width and height: the first `x` separates them.
proof fn lemma_size_part_injective(w1: int, h1: int, w2: int, h2: int)
    requires
        size_part(w1, h1) == size_part(w2, h2),
    ensures
        w1 == w2,
        h1 == h2,
{
    reveal_strlit("x");
    let m = size_part(w1, h1);
    lemma_signed_decimal_shape(w1);
    lemma_signed_decimal_shape(w2);
    let d1 = signed_decimal(w1);
    let d2 = signed_decimal(w2);
    assert(m =~= d1 + seq!['x'] + signed_decimal(h1));
    assert(size_part(w2, h2) =~= d2 + seq!['x'] + signed_decimal(h2));
    assert forall|i: int| 0 <= i < d1.len() implies m[i] != 'x' by {
        assert(m[i] == d1[i]);
    }
    assert(m[d1.len() as int] == 'x');
    lemma_index_of_char_at(m, 'x', d1.len() as int);
    assert forall|i: int| 0 <= i < d2.len() implies m[i] != 'x' by {
        assert(m[i] == d2[i]);
    }
    assert(m[d2.len() as int] == 'x');
    lemma_index_of_char_at(m, 'x', d2.len() as int);
    assert(d1 =~= m.subrange(0, d1.len() as int));
    assert(d2 =~= m.subrange(0, d2.len() as int));
    lemma_signed_decimal_injective(w1, w2);
    assert(signed_decimal(h1) =~= m.subrange(d1.len() as int + 1, m.len() as int));
    assert(signed_decimal(h2) =~= m.subrange(d2.len() as int + 1, m.len() as int));
    lemma_signed_decimal_injective(h1, h2);
}

/// Mode keys tell all modes apart: settings with the same key have the same
/// boundary, the same field size and the same speed.
pub proof fn lemma_mode_key_distinguishes(s1: Settings, s2: Settings)
    requires
        mode_key_spec(s1) == mode_key_spec(s2),
    ensures
        s1.boundary == s2.boundary,
        dimensions_of(s1) == dimensions_of(s2),
        s1.speed == s2.speed,
{
    reveal_strlit("walls");
    reveal_strlit("torus");
    reveal_strlit("slow");
    reveal_strlit("normal");
    reveal_strlit("fast");
    lemma_mode_key_parts(s1);
    lemma_mode_key_parts(s2);
    let k = mode_key_spec(s1);
    assert(boundary_word(s1.boundary)[0] == boundary_word(s2.boundary)[0]);
    assert(speed_word(s1.speed).last() == speed_word(s2.speed).last());
    let (w1, h1) = dimensions_of(s1);
    let (w2, h2) = dimensions_of(s2);
    let m1 = size_part(w1 as int, h1 as int);
    let m2 = size_part(w2 as int, h2 as int);
    assert(m1.len() == m2.len());
    assert(m1 =~= k.subrange(6, 6 + m1.len() as int));
    assert(m2 =~= k.subrange(6, 6 + m2.len() as int));
    lemma_size_part_injective(w1 as int, h1 as int, w2 as int, h2 as int);
}

/// Stable identifier of a game mode, used as table key (and as path
/// segment for global leaderboards).
pub fn mode_key(settings: &Settings) -> (key: String)
    ensures
        key@ == mode_key_spec(*settings),
{
    let boundary = match settings.boundary {
        BoundaryMode::Walls => "walls",
        BoundaryMode::Periodic => "torus",
    };
    let (width, height) = settings.dimensions();
    let speed = settings.speed.key_word();
    let mut key = String::new();
    proof {
        assert(key@ =~= Seq::<char>::empty());
    }
    push_str(&mut key, boundary);
    push_str(&mut key, "-");
    crate::text::push_padded(&mut key, width as i64, 0);
    push_str(&mut key, "x");
    crate::text::push_padded(&mut key, height as i64, 0);
    push_str(&mut key, "-");
    push_str(&mut key, speed);
    proof {
        assert(key@ =~= mode_key_spec(*settings));
    }
    key
}

/// Current UTC date as "YYYY-MM-DD".
pub fn today_iso() -> (s: String)
    ensures
        exists|days: i64|
            0 <= days <= 213_503_982_334_601 && #[trigger] crate::daily::is_iso_date_of(s@, days),
{
    crate::daily::today_iso()
}

impl Highscores {
    /// The mode keys that have a table, in the order they were first used.
    pub fn keys(&self) -> (keys: Vec<String>)
        ensures
            keys@.len() == self.key_list().len(),
            forall|i: int| 0 <= i < keys@.len() ==> (#[trigger] keys@[i])@ == self.key_list()[i],
    {
        let mut keys: Vec<String> = Vec::new();
        let mut i: usize = 0;
        while i < self.tables.len()
            invariant
                0 <= i <= self.tables@.len(),
                keys@.len() == i,
                forall|j: int| 0 <= j < i ==> (#[trigger] keys@[j])@ == self.tables@[j].0@,
            decreases self.tables@.len() - i,
        {
            keys.push(self.tables[i].0.clone());
            i += 1;
        }
        keys
    }

    /// The keys with a table are exactly the listed ones; every other key's
    /// table is empty.
    pub proof fn lemma_unlisted_key_empty(&self, k: Seq<char>)
        requires
            !self.key_list().contains(k),
        ensures
            self.table_of(k) == Seq::<Entry>::empty(),
    {
        assert forall|i: int| 0 <= i < self.tables@.len() implies (#[trigger] self.tables@[i]).0@ != k by {
            assert(self.key_list()[i] == self.tables@[i].0@);
        }
    }
}

/// Leading entries at or above a score, bounded by the table length; all
/// entries rank that high exactly when the count reaches the length.
proof fn lemma_rank_bound(t: Seq<Entry>, score: u32)
    ensures
        0 <= rank_of(t, score) <= t.len(),
        rank_of(t, score) == t.len() <==> forall|j: int| 0 <= j < t.len() ==> (#[trigger] t[j]).score >= score,
        forall|j: int| 0 <= j < rank_of(t, score) ==> (#[trigger] t[j]).score >= score,
        rank_of(t, score) < t.len() ==> t[rank_of(t, score)].score < score,
    decreases t.len(),
{
    if t.len() > 0 {
        let r = t.drop_first();
        lemma_rank_bound(r, score);
        if t[0].score >= score && rank_of(r, score) < r.len() {
            assert(t[rank_of(t, score)] == r[rank_of(r, score)]);
        }
        assert forall|j: int| 1 <= j < t.len() implies (#[trigger] t[j]) == r[j - 1] by {}
        if t[0].score >= score {
            assert forall|j: int| 0 <= j < rank_of(t, score) implies (#[trigger] t[j]).score >= score by {
                if j > 0 {
                    assert(r[j - 1].score >= score);
                }
            }
            if rank_of(t, score) == t.len() {
                assert forall|j: int| 0 <= j < t.len() implies (#[trigger] t[j]).score >= score by {}
            } else {
                let j = choose|j: int| 0 <= j < r.len() && (#[trigger] r[j]).score < score;
                assert(t[j + 1].score < score);
            }
        }
    }
}

/// A positive score enters a table exactly when it qualifies: the new entry
/// then sits at its rank, and the table stays sorted and within
/// [`MAX_ENTRIES`].
pub proof fn lemma_qualifying_score_enters(t: Seq<Entry>, e: Entry)
    requires
        sorted_desc(t),
        t.len() <= MAX_ENTRIES,
        e.score > 0,
    ensures
        qualifies_spec(t, e.score) <==> rank_of(t, e.score) < MAX_ENTRIES,
        qualifies_spec(t, e.score) ==> inserted(t, e)[rank_of(t, e.score)] == e,
        qualifies_spec(t, e.score) ==> inserted(t, e).contains(e),
        sorted_desc(inserted(t, e)),
        inserted(t, e).len() <= MAX_ENTRIES,
{
    lemma_rank_bound(t, e.score);
    let k = rank_of(t, e.score);
    let full = t.subrange(0, k).push(e) + t.subrange(k, t.len() as int);
    if t.len() == MAX_ENTRIES {
        if e.score > t.last().score {
            assert(t[t.len() - 1].score < e.score);
        } else {
            assert forall|j: int| 0 <= j < t.len() implies (#[trigger] t[j]).score >= e.score by {
                assert(t[j].score >= t[t.len() - 1].score || j == t.len() - 1);
            }
        }
    }
    if k < MAX_ENTRIES {
        assert(full[k] == e);
        assert(inserted(t, e)[k] == e);
    }
    assert forall|i: int, j: int| 0 <= i < j < inserted(t, e).len() implies (#[trigger] inserted(
        t,
        e,
    )[i]).score >= (#[trigger] inserted(t, e)[j]).score by {
        assert(inserted(t, e)[i] == full[i]);
        assert(inserted(t, e)[j] == full[j]);
        if j < k {
        } else if i < k && j == k {
        } else if i < k {
            assert(full[j] == t[j - 1]);
        } else if i == k {
            assert(full[j] == t[j - 1]);
            if k < t.len() {
                assert(t[k].score < e.score);
                assert(t[j - 1].score <= t[k].score || j - 1 == k);
            }
        } else {
            assert(full[i] == t[i - 1]);
            assert(full[j] == t[j - 1]);
        }
    }
}

/// A positive score qualifies for a table exactly when inserting it changes
/// the table.
pub proof fn lemma_qualifies_iff_table_changes(t: Seq<Entry>, e: Entry)
    requires
        sorted_desc(t),
        t.len() <= MAX_ENTRIES,
        e.score > 0,
    ensures
        qualifies_spec(t, e.score) <==> inserted(t, e) != t,
{
    lemma_qualifying_score_enters(t, e);
    lemma_rank_bound(t, e.score);
    let k = rank_of(t, e.score);
    if qualifies_spec(t, e.score) {
        if k < t.len() {
            assert(t[k].score < e.score);
            assert(inserted(t, e)[k] != t[k]);
        } else {
            assert(inserted(t, e).len() == t.len() + 1);
        }
    } else {
        assert(k == MAX_ENTRIES);
        assert(inserted(t, e) =~= t);
    }
}

impl Highscores {
    /// A positive score qualifies for the table of its mode exactly when
    /// inserting it changes that table.
    pub proof fn lemma_qualifies_iff_insert_changes(&self, key: Seq<char>, e: Entry)
        requires
            self.wf(),
            e.score > 0,
        ensures
            qualifies_spec(self.table_of(key), e.score) <==> inserted(self.table_of(key), e)
                != self.table_of(key),
    {
        if exists|i: int| 0 <= i < self.tables@.len() && (#[trigger] self.tables@[i]).0@ == key {
            let i = choose|i: int| 0 <= i < self.tables@.len() && (#[trigger] self.tables@[i]).0@ == key;
            lemma_table_of_at(*self, i);
        }
        lemma_qualifies_iff_table_changes(self.table_of(key), e);
    }
}

} // verus!
