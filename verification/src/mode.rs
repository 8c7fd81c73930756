//! Validation of mode keys for the global leaderboards.
//!
//! Global leaderboards exist only for the three size presets crossed with
//! both boundaries and the three speeds: `"{boundary}-{w}x{h}-{speed}"`,
//! e.g. `"walls-16x12-normal"` or `"torus-32x24-fast"`. The speed only
//! selects the table; it does not affect the deterministic simulation.
use vstd::prelude::*;
use vstd::string::StrSliceExecFns;

use crate::board::BoundaryMode;
use crate::highscores::{boundary_word, mode_key_spec, size_part, speed_word};
use crate::settings::{dimensions_of, Settings};
use crate::text::{
    decimal, find_char, index_of_char, lemma_index_of_char_at, lemma_signed_decimal_shape, str_equals,
    substring,
};

verus! {

/// The board a mode key implies, used to cross-check a submitted replay.
#[derive(Debug, Clone, Copy, PartialEq, Eq, Structural)]
pub struct ModeBoard {
    pub boundary: BoundaryMode,
    pub width: i32,
    pub height: i32,
}

/// The three allowed preset dimensions (Hamilton-compatible).
pub open spec fn is_preset(w: int, h: int) -> bool {
    (w == 16 && h == 12) || (w == 24 && h == 18) || (w == 32 && h == 24)
}

pub open spec fn is_speed_word(s: Seq<char>) -> bool {
    s == "slow"@ || s == "normal"@ || s == "fast"@
}

pub open spec fn boundary_of_word(s: Seq<char>) -> Option<BoundaryMode> {
    if s == "walls"@ {
        Some(BoundaryMode::Walls)
    } else if s == "torus"@ {
        Some(BoundaryMode::Periodic)
    } else {
        None
    }
}

/// The board a size text denotes: one of the three preset sizes, written
/// `"{w}x{h}"` in plain decimal (no sign, no leading zero).
pub open spec fn preset_of_size(size: Seq<char>) -> Option<(i32, i32)> {
    if size == "16x12"@ {
        Some((16i32, 12i32))
    } else if size == "24x18"@ {
        Some((24i32, 18i32))
    } else if size == "32x24"@ {
        Some((32i32, 24i32))
    } else {
        None
    }
}

/// The board a mode key denotes: exactly three `-`-separated parts, a known
/// boundary word, a preset size and a known speed word.
pub open spec fn mode_board_of(m: Seq<char>) -> Option<ModeBoard> {
    let i1 = index_of_char(m, '-');
    let rest1 = m.subrange(i1 + 1, m.len() as int);
    let i2 = i1 + 1 + index_of_char(rest1, '-');
    let rest2 = m.subrange(i2 + 1, m.len() as int);
    if i1 < 0 || index_of_char(rest1, '-') < 0 || index_of_char(rest2, '-') >= 0 {
        None
    } else {
        match (boundary_of_word(m.subrange(0, i1)), preset_of_size(m.subrange(i1 + 1, i2))) {
            (Some(boundary), Some((w, h))) => if is_speed_word(rest2) {
                Some(ModeBoard { boundary, width: w, height: h })
            } else {
                None
            },
            _ => None,
        }
    }
}

/// Parse and validate a global-leaderboard mode key. Returns the implied
/// board, or `None` if the key is not one of the allowed preset modes.
pub fn parse(mode: &str) -> (r: Option<ModeBoard>)
    ensures
        r == mode_board_of(mode@),
{
    let n = mode.unicode_len();
    let i1 = match find_char(mode, '-', 0) {
        Some(i) => i,
        None => {
            proof {
                crate::text::lemma_index_of_char_at(mode@, '-', n as int);
            }
            return None;
        },
    };
    proof {
        crate::text::lemma_index_of_char_at(mode@, '-', i1 as int);
    }
    let ghost rest1 = mode@.subrange(i1 + 1, n as int);
    let i2 = match find_char(mode, '-', i1 + 1) {
        Some(i) => i,
        None => {
            proof {
                assert forall|k: int| 0 <= k < rest1.len() implies rest1[k] != '-' by {
                    assert(rest1[k] == mode@[i1 + 1 + k]);
                }
                crate::text::lemma_index_of_char_at(rest1, '-', rest1.len() as int);
            }
            return None;
        },
    };
    proof {
        assert forall|k: int| 0 <= k < i2 - i1 - 1 implies rest1[k] != '-' by {
            assert(rest1[k] == mode@[i1 + 1 + k]);
        }
        assert(rest1[i2 - i1 - 1] == mode@[i2 as int]);
        crate::text::lemma_index_of_char_at(rest1, '-', i2 - i1 - 1);
    }
    let ghost rest2 = mode@.subrange(i2 + 1, n as int);
    match find_char(mode, '-', i2 + 1) {
        Some(i3) => {
            proof {
                assert forall|k: int| 0 <= k < i3 - i2 - 1 implies rest2[k] != '-' by {
                    assert(rest2[k] == mode@[i2 + 1 + k]);
                }
                assert(rest2[i3 - i2 - 1] == mode@[i3 as int]);
                crate::text::lemma_index_of_char_at(rest2, '-', i3 - i2 - 1);
            }
            return None;
        },
        None => {
            proof {
                assert forall|k: int| 0 <= k < rest2.len() implies rest2[k] != '-' by {
                    assert(rest2[k] == mode@[i2 + 1 + k]);
                }
                crate::text::lemma_index_of_char_at(rest2, '-', rest2.len() as int);
            }
        },
    }
    let word = substring(mode, 0, i1);
    let boundary = if str_equals(word, "walls") {
        BoundaryMode::Walls
    } else if str_equals(word, "torus") {
        BoundaryMode::Periodic
    } else {
        return None;
    };
    let speed = substring(mode, i2 + 1, n);
    if !(str_equals(speed, "slow") || str_equals(speed, "normal") || str_equals(speed, "fast")) {
        return None;
    }
    let size = substring(mode, i1 + 1, i2);
    if str_equals(size, "16x12") {
        Some(ModeBoard { boundary, width: 16, height: 12 })
    } else if str_equals(size, "24x18") {
        Some(ModeBoard { boundary, width: 24, height: 18 })
    } else if str_equals(size, "32x24") {
        Some(ModeBoard { boundary, width: 32, height: 24 })
    } else {
        None
    }
}

/// The size part of a preset game's key is one of the three preset texts.
proof fn lemma_preset_size_text(w: int, h: int)
    requires
        is_preset(w, h),
    ensures
        preset_of_size(size_part(w, h)) == Some((w as i32, h as i32)),
        forall|i: int| 0 <= i < size_part(w, h).len() ==> (#[trigger] size_part(w, h)[i]) != '-',
{
    reveal_strlit("x");
    reveal_strlit("16x12");
    reveal_strlit("24x18");
    reveal_strlit("32x24");
    lemma_signed_decimal_shape(w);
    lemma_signed_decimal_shape(h);
    reveal_with_fuel(decimal, 3);
    let m = size_part(w, h);
    if w == 16 {
        assert(m =~= "16x12"@);
    } else if w == 24 {
        assert(m =~= "24x18"@);
        assert(m[0] != "16x12"@[0]);
    } else {
        assert(m =~= "32x24"@);
        assert(m[0] != "16x12"@[0]);
        assert(m[0] != "24x18"@[0]);
    }
}

/// The server accepts every key a preset game is filed under and reads back
/// the board it was played on.
pub proof fn lemma_preset_key_parses(s: Settings)
    requires
        is_preset(dimensions_of(s).0 as int, dimensions_of(s).1 as int),
    ensures
        mode_board_of(mode_key_spec(s)) == Some(
            ModeBoard { boundary: s.boundary, width: dimensions_of(s).0, height: dimensions_of(s).1 },
        ),
{
    reveal_strlit("walls");
    reveal_strlit("torus");
    reveal_strlit("slow");
    reveal_strlit("normal");
    reveal_strlit("fast");
    reveal_strlit("-");
    reveal_strlit("x");
    crate::highscores::lemma_mode_key_parts(s);
    let (w, h) = dimensions_of(s);
    let b = boundary_word(s.boundary);
    let m = size_part(w as int, h as int);
    let sp = speed_word(s.speed);
    let k = mode_key_spec(s);
    lemma_preset_size_text(w as int, h as int);
    assert(k =~= b + seq!['-'] + m + seq!['-'] + sp);
    // The first dash ends the boundary word.
    assert forall|i: int| 0 <= i < 5 implies k[i] != '-' by {
        assert(k[i] == b[i]);
    }
    lemma_index_of_char_at(k, '-', 5);
    // The next dash ends the size part.
    let rest1 = k.subrange(6, k.len() as int);
    assert(rest1 =~= m + seq!['-'] + sp);
    assert forall|i: int| 0 <= i < m.len() implies rest1[i] != '-' by {
        assert(rest1[i] == m[i]);
    }
    lemma_index_of_char_at(rest1, '-', m.len() as int);
    let i2: int = 6 + m.len() as int;
    let rest2 = k.subrange(i2 + 1, k.len() as int);
    assert(rest2 =~= sp);
    lemma_index_of_char_at(rest2, '-', rest2.len() as int);
    assert(k.subrange(0, 5) =~= b);
    assert(k.subrange(6, i2) =~= m);
}

} // verus!
