//! Compact seed representation: 32-bit seeds shown as 6 URL-safe base64
//! characters (instead of up to 20 decimal digits).
//!
//! Parsing accepts both forms. This is unambiguous: a u32 occupies the low
//! 32 of the 36 encoded bits, so the first base64 character is always in
//! `A..=P` — an encoded seed can never consist of digits only, while a
//! decimal seed always does.
use vstd::prelude::*;
use vstd::string::StrSliceExecFns;

use crate::text::{
    all_digits, decimal, digits_value, is_word_char, parse_digits_u64, push_char, push_decimal,
    trim_str, trimmed,
};

verus! {

/// The base64 character of a 6-bit value (URL-safe alphabet `A–Z a–z 0–9 - _`).
pub open spec fn b64_char(v: int) -> char {
    if v < 26 {
        (65 + v) as char
    } else if v < 52 {
        (97 + v - 26) as char
    } else if v < 62 {
        (48 + v - 52) as char
    } else if v == 62 {
        '-'
    } else {
        '_'
    }
}

/// Whether a character belongs to the alphabet.
pub open spec fn is_b64(c: char) -> bool {
    ('A' <= c <= 'Z') || ('a' <= c <= 'z') || ('0' <= c <= '9') || c == '-' || c == '_'
}

/// The 6-bit value of an alphabet character (its position in the alphabet).
pub open spec fn b64_value(c: char) -> int {
    if 'A' <= c <= 'Z' {
        c as int - 65
    } else if 'a' <= c <= 'z' {
        c as int - 97 + 26
    } else if '0' <= c <= '9' {
        c as int - 48 + 52
    } else if c == '-' {
        62
    } else {
        63
    }
}

/// The last `m` base64 digits of `x`, most significant first.
pub open spec fn b64_digits(x: nat, m: nat) -> Seq<char>
    decreases m,
{
    if m == 0 {
        Seq::empty()
    } else {
        b64_digits(x / 64, (m - 1) as nat).push(b64_char((x % 64) as int))
    }
}

/// The value of a string of alphabet characters read as base 64.
pub open spec fn b64_number(s: Seq<char>) -> nat
    decreases s.len(),
{
    if s.len() == 0 {
        0
    } else {
        (b64_number(s.drop_last()) * 64 + b64_value(s.last())) as nat
    }
}

/// The display form of a seed.
pub open spec fn encoded_seed(seed: u64) -> Seq<char> {
    if seed > u32::MAX {
        decimal(seed as nat)
    } else {
        b64_digits(seed as nat, 6)
    }
}

/// Which seed a (trimmed) text denotes, if any.
pub open spec fn seed_of_text(t: Seq<char>) -> Option<u64> {
    if t.len() == 0 {
        None
    } else if all_digits(t) {
        if digits_value(t) <= u64::MAX {
            Some(digits_value(t) as u64)
        } else {
            None
        }
    } else if t.len() != 6 || !(forall|i: int| 0 <= i < t.len() ==> is_b64(#[trigger] t[i])) {
        None
    } else if b64_number(t) <= u32::MAX {
        Some(b64_number(t) as u64)
    } else {
        None
    }
}

/// The character of a 6-bit value.
fn b64_char_of(v: u64) -> (c: char)
    requires
        v < 64,
    ensures
        c == b64_char(v as int),
{
    if v < 26 {
        ((65 + v) as u8) as char
    } else if v < 52 {
        ((97 + v - 26) as u8) as char
    } else if v < 62 {
        ((48 + v - 52) as u8) as char
    } else if v == 62 {
        '-'
    } else {
        '_'
    }
}

/// Display form of a seed: 6 base64 chars for 32-bit seeds, decimal for
/// legacy seeds that exceed 32 bits.
pub fn encode_seed(seed: u64) -> (s: String)
    ensures
        s@ == encoded_seed(seed),
{
    let mut out = String::new();
    if seed > 0xFFFF_FFFF {
        push_decimal(&mut out, seed);
        return out;
    }
    let mut chars: Vec<char> = Vec::new();
    let mut bits = seed;
    let mut k: usize = 0;
    while k < 6
        invariant
            0 <= k <= 6,
            chars@.len() == k,
            b64_digits(seed as nat, 6) == b64_digits(bits as nat, (6 - k) as nat) + chars@.reverse(),
        decreases 6 - k,
    {
        let c = b64_char_of(bits % 64);
        proof {
            assert(b64_digits(bits as nat, (6 - k) as nat) == b64_digits(
                (bits / 64) as nat,
                (6 - k - 1) as nat,
            ).push(c));
        }
        chars.push(c);
        proof {
            assert(chars@.reverse() =~= seq![c] + chars@.drop_last().reverse());
            assert(b64_digits(seed as nat, 6) =~= b64_digits((bits / 64) as nat, (6 - k - 1) as nat)
                + chars@.reverse());
        }
        bits = bits / 64;
        k += 1;
    }
    proof {
        assert(b64_digits(bits as nat, 0) =~= Seq::<char>::empty());
        assert(b64_digits(seed as nat, 6) =~= chars@.reverse());
    }
    let mut i: usize = 6;
    while i > 0
        invariant
            0 <= i <= 6,
            chars@.len() == 6,
            out@ == chars@.reverse().subrange(0, 6 - i),
        decreases i,
    {
        i -= 1;
        push_char(&mut out, chars[i]);
        proof {
            assert(chars@.reverse().subrange(0, 6 - i) =~= chars@.reverse().subrange(
                0,
                6 - i - 1,
            ).push(chars@[i as int]));
        }
    }
    proof {
        assert(chars@.reverse().subrange(0, 6) =~= chars@.reverse());
    }
    out
}

/// Parse a seed in either form: decimal (digits only) or 6-char base64.
/// Surrounding whitespace is ignored.
pub fn parse_seed(s: &str) -> (r: Option<u64>)
    ensures
        r == seed_of_text(trimmed(s@)),
        (forall|i: int| 0 <= i < s@.len() ==> is_word_char(#[trigger] s@[i])) ==> r
            == seed_of_text(s@),
{
    let t = trim_str(s);
    proof {
        if forall|i: int| 0 <= i < s@.len() ==> is_word_char(#[trigger] s@[i]) {
            crate::text::lemma_trim_words(s@);
        }
    }
    let n = t.unicode_len();
    if n == 0 {
        return None;
    }
    let mut all_dig = true;
    let mut i: usize = 0;
    while i < n
        invariant
            n == t@.len(),
            0 <= i <= n,
            all_dig == all_digits(t@.subrange(0, i as int)),
        decreases n - i,
    {
        let c = t.get_char(i);
        proof {
            assert(t@.subrange(0, i + 1) =~= t@.subrange(0, i as int).push(c));
        }
        if !('0' <= c && c <= '9') {
            all_dig = false;
        }
        proof {
            let sub = t@.subrange(0, i as int);
            let sub2 = t@.subrange(0, i + 1);
            if all_digits(sub) && crate::text::is_digit(c) {
                assert forall|k: int| 0 <= k < sub2.len() implies crate::text::is_digit(
                    #[trigger] sub2[k],
                ) by {
                    if k < i {
                        assert(sub2[k] == sub[k]);
                    }
                }
            }
            if !crate::text::is_digit(c) {
                assert(sub2[i as int] == c);
            }
            if !all_digits(sub) {
                let k = choose|k: int| 0 <= k < sub.len() && !crate::text::is_digit(#[trigger] sub[k]);
                assert(sub2[k] == sub[k]);
            }
        }
        i += 1;
    }
    proof {
        assert(t@.subrange(0, n as int) =~= t@);
    }
    if all_dig {
        return parse_digits_u64(t);
    }
    if n != 6 {
        return None;
    }
    let mut bits: u64 = 0;
    let mut j: usize = 0;
    while j < 6
        invariant
            n == 6,
            t@.len() == 6,
            t@ == trimmed(s@),
            (forall|i: int| 0 <= i < s@.len() ==> is_word_char(#[trigger] s@[i])) ==> t@ == s@,
            !all_digits(t@),
            0 <= j <= 6,
            forall|k: int| 0 <= k < j ==> is_b64(#[trigger] t@[k]),
            bits == b64_number(t@.subrange(0, j as int)),
            bits < pow64(j as nat),
        decreases 6 - j,
    {
        let c = t.get_char(j);
        let value: u64 = if 'A' <= c && c <= 'Z' {
            (c as u32 - 65) as u64
        } else if 'a' <= c && c <= 'z' {
            (c as u32 - 97 + 26) as u64
        } else if '0' <= c && c <= '9' {
            (c as u32 - 48 + 52) as u64
        } else if c == '-' {
            62
        } else if c == '_' {
            63
        } else {
            proof {
                assert(!is_b64(t@[j as int]));
                assert(!(forall|k: int| 0 <= k < t@.len() ==> is_b64(#[trigger] t@[k])));
                assert(seed_of_text(t@) is None);
            }
            return None;
        };
        proof {
            assert(t@.subrange(0, j + 1).drop_last() =~= t@.subrange(0, j as int));
            assert(pow64((j + 1) as nat) == pow64(j as nat) * 64);
            lemma_pow64_six();
            lemma_pow64_mono(j as nat, 5);
            assert(bits * 64 + value < pow64(j as nat) * 64) by (nonlinear_arith)
                requires
                    bits < pow64(j as nat),
                    value < 64,
            ;
        }
        bits = bits * 64 + value;
        j += 1;
    }
    proof {
        assert(t@.subrange(0, 6) =~= t@);
    }
    if bits <= 0xFFFF_FFFF {
        Some(bits)
    } else {
        None
    }
}

pub open spec fn pow64(k: nat) -> nat
    decreases k,
{
    if k == 0 {
        1
    } else {
        64 * pow64((k - 1) as nat)
    }
}

proof fn lemma_pow64_six()
    ensures
        pow64(6) == 68719476736,
{
    reveal_with_fuel(pow64, 7);
}

proof fn lemma_pow64_mono(j: nat, k: nat)
    requires
        j <= k,
    ensures
        pow64(j) <= pow64(k),
    decreases k,
{
    if j < k {
        lemma_pow64_mono(j, (k - 1) as nat);
    }
}

/// Reading base64 digits back gives the number (below `64^m`).
proof fn lemma_b64_roundtrip(x: nat, m: nat)
    requires
        x < pow64(m),
    ensures
        b64_number(b64_digits(x, m)) == x,
        b64_digits(x, m).len() == m,
        forall|i: int| 0 <= i < m ==> is_b64(#[trigger] b64_digits(x, m)[i]),
        forall|i: int| 0 <= i < m ==> is_word_char(#[trigger] b64_digits(x, m)[i]),
    decreases m,
{
    if m > 0 {
        assert(x / 64 < pow64((m - 1) as nat)) by (nonlinear_arith)
            requires
                x < 64 * pow64((m - 1) as nat),
        ;
        lemma_b64_roundtrip(x / 64, (m - 1) as nat);
        let s = b64_digits(x, m);
        assert(s.drop_last() =~= b64_digits(x / 64, (m - 1) as nat));
        lemma_b64_char_value((x % 64) as int);
        assert(x == (x / 64) * 64 + x % 64);
    }
}

proof fn lemma_b64_char_value(v: int)
    requires
        0 <= v < 64,
    ensures
        is_b64(b64_char(v)),
        is_word_char(b64_char(v)),
        b64_value(b64_char(v)) == v,
{
    if v < 26 {
        assert((65 + v) as char as int == 65 + v);
    } else if v < 52 {
        assert((97 + v - 26) as char as int == 97 + v - 26);
    } else if v < 62 {
        assert((48 + v - 52) as char as int == 48 + v - 52);
    }
}

/// Parsing the display form of any seed gives the seed back.
pub proof fn lemma_seed_roundtrip(seed: u64)
    ensures
        (forall|i: int|
            0 <= i < encoded_seed(seed).len() ==> is_word_char(#[trigger] encoded_seed(seed)[i])),
        seed_of_text(encoded_seed(seed)) == Some(seed),
{
    if seed > u32::MAX {
        crate::text::lemma_decimal_roundtrip(seed as nat);
        assert forall|i: int| 0 <= i < encoded_seed(seed).len() implies is_word_char(
            #[trigger] encoded_seed(seed)[i],
        ) by {
            assert(crate::text::is_digit(decimal(seed as nat)[i]));
        }
    } else {
        lemma_pow64_six();
        lemma_b64_roundtrip(seed as nat, 6);
        lemma_encoded_first_char(seed);
    }
}

/// A 32-bit seed's display form starts with a letter in `A..=P`, so it is
/// never all digits.
pub proof fn lemma_encoded_first_char(seed: u64)
    requires
        seed <= u32::MAX,
    ensures
        encoded_seed(seed).len() == 6,
        'A' <= encoded_seed(seed)[0] <= 'P',
        !all_digits(encoded_seed(seed)),
{
    lemma_pow64_six();
    lemma_b64_roundtrip(seed as nat, 6);
    let x = seed as nat;
    let top = x / 64 / 64 / 64 / 64 / 64;
    assert(top < 16);
    assert(b64_digits(x, 6)[0] == b64_char((top % 64) as int)) by {
        reveal_with_fuel(b64_digits, 7);
    }
    assert((65 + top) as char as int == 65 + top);
}

/// The seed made of an entropy value: its low 32 bits.
pub fn seed_of_entropy(e: u64) -> (s: u64)
    ensures
        s == e & 0xFFFF_FFFF,
        s <= u32::MAX,
{
    let r = e & 0xFFFF_FFFF;
    assert(r <= u32::MAX) by (bit_vector)
        requires
            r == e & 0xFFFF_FFFF,
    ;
    r
}

/// The entropy value of a clock reading in nanoseconds: its low 64 bits.
pub fn entropy_of_nanos(n: u128) -> (e: u64)
    ensures
        e == n as u64,
{
    n as u64
}

/// A fresh 32-bit seed for a new game, taken from the clock: the low 32
/// bits of the nanoseconds since the Unix epoch (0 before the epoch).
pub fn random_seed() -> (s: u64)
    ensures
        s <= u32::MAX,
        exists|n: u128|
            n <= 18_446_744_073_709_551_615_999_999_999 && s == (#[trigger] (n as u64)) & 0xFFFF_FFFF,
{
    let e = entropy();
    seed_of_entropy(e)
}

/// Low 64 bits of the nanoseconds since the Unix epoch (0 before the
/// epoch). Which reading the clock gives is the time; the value is stated
/// for whatever it was.
pub fn entropy() -> (e: u64)
    ensures
        exists|n: u128| n <= 18_446_744_073_709_551_615_999_999_999 && e == #[trigger] (n as u64),
{
    let n = crate::daily::wall_clock_nanos();
    entropy_of_nanos(n)
}

} // verus!
