//! Decimal formatting and parsing of integers, as used by seeds, mode keys
//! and dates.
use vstd::prelude::*;
use vstd::string::StrSliceExecFns;

verus! {

/// `String::push` (std): appends one character.
#[verifier::external_body]
pub(crate) fn push_char(s: &mut String, c: char)
    ensures
        final(s)@ == old(s)@.push(c),
{
    s.push(c)
}

/// The string without its leading and trailing whitespace (what `str::trim`
/// leaves; see [`trimmed`]).
pub(crate) fn trim_str(s: &str) -> (r: &str)
    ensures
        r@ == trimmed(s@),
{
    let n = s.unicode_len();
    proof {
        assert(s@.subrange(0, n as int) =~= s@);
    }
    let mut a: usize = 0;
    while a < n && white_space(s.get_char(a))
        invariant
            n == s@.len(),
            0 <= a <= n,
            trim_start(s@) == trim_start(s@.subrange(a as int, n as int)),
        decreases n - a,
    {
        proof {
            let rest = s@.subrange(a as int, n as int);
            assert(rest.drop_first() =~= s@.subrange(a + 1, n as int));
        }
        a += 1;
    }
    proof {
        assert(s@.subrange(a as int, n as int) == trim_start(s@)) by {
            let rest = s@.subrange(a as int, n as int);
            if rest.len() > 0 {
                assert(rest[0] == s@[a as int]);
            }
        }
    }
    let mut b: usize = n;
    while b > a && white_space(s.get_char(b - 1))
        invariant
            n == s@.len(),
            0 <= a <= b <= n,
            trim_end(s@.subrange(a as int, n as int)) == trim_end(s@.subrange(a as int, b as int)),
        decreases b - a,
    {
        proof {
            let part = s@.subrange(a as int, b as int);
            assert(part.drop_last() =~= s@.subrange(a as int, b - 1));
            assert(part.last() == s@[b - 1]);
        }
        b -= 1;
    }
    proof {
        let part = s@.subrange(a as int, b as int);
        if part.len() > 0 {
            assert(part.last() == s@[b - 1]);
        }
        assert(trim_end(part) == part);
    }
    substring(s, a, b)
}

/// Whether a character has the Unicode `White_Space` property.
fn white_space(c: char) -> (r: bool)
    ensures
        r == is_white_space(c),
{
    let n = c as u32;
    (0x09 <= n && n <= 0x0d) || n == 0x20 || n == 0x85 || n == 0xa0 || n == 0x1680 || (0x2000 <= n
        && n <= 0x200a) || n == 0x2028 || n == 0x2029 || n == 0x202f || n == 0x205f || n == 0x3000
}

/// The characters with the Unicode `White_Space` property: tab, line feed,
/// vertical tab, form feed, carriage return, space, next line, no-break
/// space, ogham space mark, the spaces U+2000 to U+200A, line and paragraph
/// separator, narrow no-break space, medium mathematical space and
/// ideographic space.
pub open spec fn is_white_space(c: char) -> bool {
    let n = c as int;
    ||| 0x09 <= n <= 0x0d
    ||| n == 0x20
    ||| n == 0x85
    ||| n == 0xa0
    ||| n == 0x1680
    ||| 0x2000 <= n <= 0x200a
    ||| n == 0x2028
    ||| n == 0x2029
    ||| n == 0x202f
    ||| n == 0x205f
    ||| n == 0x3000
}

/// `s` without its leading whitespace.
pub open spec fn trim_start(s: Seq<char>) -> Seq<char>
    decreases s.len(),
{
    if s.len() > 0 && is_white_space(s[0]) {
        trim_start(s.drop_first())
    } else {
        s
    }
}

/// `s` without its trailing whitespace.
pub open spec fn trim_end(s: Seq<char>) -> Seq<char>
    decreases s.len(),
{
    if s.len() > 0 && is_white_space(s.last()) {
        trim_end(s.drop_last())
    } else {
        s
    }
}

/// What `str::trim` leaves of a string.
pub open spec fn trimmed(s: Seq<char>) -> Seq<char> {
    trim_end(trim_start(s))
}

/// A string of word characters has no whitespace to trim.
pub proof fn lemma_trim_words(s: Seq<char>)
    requires
        forall|i: int| 0 <= i < s.len() ==> is_word_char(#[trigger] s[i]),
    ensures
        trimmed(s) == s,
{
    if s.len() > 0 {
        assert(is_word_char(s[0]));
        assert(is_word_char(s[s.len() - 1]));
    }
}

/// ASCII letters, digits, `-` and `_`.
pub open spec fn is_word_char(c: char) -> bool {
    ('A' <= c <= 'Z') || ('a' <= c <= 'z') || ('0' <= c <= '9') || c == '-' || c == '_'
}

pub open spec fn is_digit(c: char) -> bool {
    '0' <= c <= '9'
}

pub open spec fn digit_char(d: int) -> char {
    (d + 48) as char
}

pub open spec fn digit_value(c: char) -> int {
    c as int - 48
}

/// The decimal representation of a natural number (no leading zeros).
pub open spec fn decimal(n: nat) -> Seq<char>
    decreases n,
{
    if n < 10 {
        seq![digit_char(n as int)]
    } else {
        decimal(n / 10).push(digit_char((n % 10) as int))
    }
}

/// The value of a string of decimal digits.
pub open spec fn digits_value(s: Seq<char>) -> nat
    decreases s.len(),
{
    if s.len() == 0 {
        0
    } else {
        (digits_value(s.drop_last()) * 10 + digit_value(s.last())) as nat
    }
}

pub open spec fn all_digits(s: Seq<char>) -> bool {
    forall|i: int| 0 <= i < s.len() ==> is_digit(#[trigger] s[i])
}

/// `n` zero characters.
pub open spec fn zeros(n: int) -> Seq<char> {
    Seq::new(if n > 0 { n as nat } else { 0 }, |i: int| '0')
}

/// A signed integer formatted with at least `width` characters, zero-padded
/// after the sign (Rust's `{:0width$}`).
pub open spec fn padded(n: int, width: int) -> Seq<char> {
    if n >= 0 {
        zeros(width - decimal(n as nat).len()) + decimal(n as nat)
    } else {
        seq!['-'] + zeros(width - 1 - decimal((-n) as nat).len()) + decimal((-n) as nat)
    }
}

/// A signed integer in decimal (Rust's `{}`).
pub open spec fn signed_decimal(n: int) -> Seq<char> {
    padded(n, 0)
}

/// Digit characters map back to their values.
pub proof fn lemma_digit_char_value(d: int)
    requires
        0 <= d < 10,
    ensures
        digit_value(digit_char(d)) == d,
        is_digit(digit_char(d)),
{
    assert((d + 48) as char as int == d + 48);
}

proof fn lemma_decimal_props(n: nat)
    ensures
        decimal(n).len() >= 1,
        all_digits(decimal(n)),
        digits_value(decimal(n)) == n,
    decreases n,
{
    if n >= 10 {
        lemma_decimal_props(n / 10);
        let s = decimal(n);
        assert(s.drop_last() =~= decimal(n / 10));
        lemma_digit_char_value((n % 10) as int);
        assert(s.last() == digit_char((n % 10) as int));
        assert(digits_value(s.drop_last()) == n / 10);
        assert(digits_value(s) == digits_value(s.drop_last()) * 10 + digit_value(s.last()));
        assert(n == (n / 10) * 10 + n % 10);
    } else {
        lemma_digit_char_value(n as int);
        assert(decimal(n).drop_last() =~= Seq::<char>::empty());
        assert(digits_value(decimal(n)) == digits_value(decimal(n).drop_last()) * 10 + digit_value(
            decimal(n).last(),
        ));
    }
}

/// Formatting and parsing decimal numbers are inverse.
pub proof fn lemma_decimal_roundtrip(n: nat)
    ensures
        all_digits(decimal(n)),
        decimal(n).len() >= 1,
        digits_value(decimal(n)) == n,
{
    lemma_decimal_props(n);
}

/// A signed decimal is the digits of the magnitude, after a `-` for
/// negative numbers.
pub proof fn lemma_signed_decimal_shape(n: int)
    ensures
        n >= 0 ==> signed_decimal(n) == decimal(n as nat),
        n < 0 ==> signed_decimal(n) == seq!['-'] + decimal((-n) as nat),
        forall|i: int|
            0 <= i < signed_decimal(n).len() ==> is_digit(#[trigger] signed_decimal(n)[i]) || (i == 0
                && n < 0 && signed_decimal(n)[i] == '-'),
        signed_decimal(n).len() >= 1,
{
    if n >= 0 {
        lemma_decimal_roundtrip(n as nat);
        assert(zeros(0 - decimal(n as nat).len()) =~= Seq::<char>::empty());
        assert(signed_decimal(n) =~= decimal(n as nat));
    } else {
        lemma_decimal_roundtrip((-n) as nat);
        assert(zeros(0 - 1 - decimal((-n) as nat).len()) =~= Seq::<char>::empty());
        assert(signed_decimal(n) =~= seq!['-'] + decimal((-n) as nat));
    }
}

/// Different numbers have different signed decimals.
pub proof fn lemma_signed_decimal_injective(a: int, b: int)
    requires
        signed_decimal(a) == signed_decimal(b),
    ensures
        a == b,
{
    lemma_signed_decimal_shape(a);
    lemma_signed_decimal_shape(b);
    lemma_decimal_roundtrip(if a >= 0 { a as nat } else { (-a) as nat });
    lemma_decimal_roundtrip(if b >= 0 { b as nat } else { (-b) as nat });
    if a >= 0 && b < 0 {
        assert(is_digit(signed_decimal(a)[0]));
        assert(signed_decimal(b)[0] == '-');
    } else if a < 0 && b >= 0 {
        assert(is_digit(signed_decimal(b)[0]));
        assert(signed_decimal(a)[0] == '-');
    } else if a < 0 && b < 0 {
        assert(decimal((-a) as nat) =~= signed_decimal(a).drop_first());
        assert(decimal((-b) as nat) =~= signed_decimal(b).drop_first());
    }
}

/// Append all characters of `t` to `s`.
pub(crate) fn push_str(s: &mut String, t: &str)
    ensures
        final(s)@ == old(s)@ + t@,
{
    let n = t.unicode_len();
    let mut i: usize = 0;
    while i < n
        invariant
            n == t@.len(),
            0 <= i <= n,
            s@ == old(s)@ + t@.subrange(0, i as int),
        decreases n - i,
    {
        push_char(s, t.get_char(i));
        proof {
            assert(t@.subrange(0, i + 1) =~= t@.subrange(0, i as int).push(t@[i as int]));
        }
        i += 1;
    }
    proof {
        assert(t@.subrange(0, n as int) =~= t@);
    }
}

/// Append the decimal form of `n` to `s`.
pub fn push_decimal(s: &mut String, n: u64)
    ensures
        final(s)@ == old(s)@ + decimal(n as nat),
{
    let mut digits: Vec<char> = Vec::new();
    let mut m = n;
    proof {
        lemma_decimal_props(n as nat);
    }
    loop
        invariant_except_break
            decimal(n as nat) == decimal(m as nat) + digits@.reverse(),
        ensures
            decimal(n as nat) == digits@.reverse(),
        decreases m,
    {
        let d = (m % 10) as u32;
        let c = char_of_digit(d);
        digits.push(c);
        if m < 10 {
            proof {
                assert(decimal(m as nat) =~= seq![c]);
                assert(digits@.reverse() =~= seq![c] + digits@.drop_last().reverse());
                assert(decimal(n as nat) =~= digits@.reverse());
            }
            break;
        }
        proof {
            assert(decimal(m as nat) == decimal((m / 10) as nat).push(c));
            assert(digits@.reverse() =~= seq![c] + digits@.drop_last().reverse());
            assert(decimal(n as nat) =~= decimal((m / 10) as nat) + digits@.reverse());
        }
        m = m / 10;
    }
    let ghost start = s@;
    let mut i = digits.len();
    while i > 0
        invariant
            0 <= i <= digits@.len(),
            decimal(n as nat) == digits@.reverse(),
            s@ == start + digits@.reverse().subrange(0, digits@.len() - i),
        decreases i,
    {
        i -= 1;
        push_char(s, digits[i]);
        proof {
            assert(digits@.reverse().subrange(0, digits@.len() - i) =~= digits@.reverse().subrange(
                0,
                digits@.len() - i - 1,
            ).push(digits@[i as int]));
        }
    }
    proof {
        assert(digits@.reverse().subrange(0, digits@.len() as int) =~= digits@.reverse());
    }
}

/// Append `n` formatted with at least `width` characters, zero-padded after
/// the sign.
#[verifier::rlimit(40)]
#[verifier::spinoff_prover]
pub fn push_padded(s: &mut String, n: i64, width: usize)
    requires
        width <= 20,
    ensures
        final(s)@ == old(s)@ + padded(n as int, width as int),
{
    let magnitude: u64 = if n >= 0 { n as u64 } else { (-(n as i128)) as u64 };
    let mut probe = String::new();
    push_decimal(&mut probe, magnitude);
    let len = probe.as_str().unicode_len();
    let ghost start = s@;
    let mut fill: usize = if n >= 0 { width } else if width > 0 { width - 1 } else { 0 };
    if n < 0 {
        push_char(s, '-');
    }
    let ghost prefix = s@;
    let mut k: usize = 0;
    let target: usize = if fill > len { fill - len } else { 0 };
    while k < target
        invariant
            0 <= k <= target,
            s@ == prefix + zeros(k as int),
        decreases target - k,
    {
        push_char(s, '0');
        k += 1;
        proof {
            assert(zeros(k as int) =~= zeros(k - 1).push('0'));
        }
    }
    let ghost before = s@;
    let digits = probe.as_str();
    let mut j: usize = 0;
    while j < len
        invariant
            0 <= j <= len,
            len == digits@.len(),
            digits@ == decimal(magnitude as nat),
            s@ == before + digits@.subrange(0, j as int),
        decreases len - j,
    {
        push_char(s, digits.get_char(j));
        j += 1;
        proof {
            assert(digits@.subrange(0, j as int) =~= digits@.subrange(0, j - 1).push(digits@[j - 1]));
        }
    }
    proof {
        assert(digits@.subrange(0, len as int) =~= digits@);
        assert(zeros(target as int) =~= zeros(fill - decimal(magnitude as nat).len()));
        if n >= 0 {
            assert(s@ =~= start + padded(n as int, width as int));
        } else {
            assert(zeros(fill - decimal(magnitude as nat).len()) =~= zeros(
                width - 1 - decimal(magnitude as nat).len(),
            ));
            assert(s@ =~= start + padded(n as int, width as int));
        }
    }
}

/// The character of a decimal digit.
pub fn char_of_digit(d: u32) -> (c: char)
    requires
        d < 10,
    ensures
        c == digit_char(d as int),
{
    if d == 0 {
        '0'
    } else if d == 1 {
        '1'
    } else if d == 2 {
        '2'
    } else if d == 3 {
        '3'
    } else if d == 4 {
        '4'
    } else if d == 5 {
        '5'
    } else if d == 6 {
        '6'
    } else if d == 7 {
        '7'
    } else if d == 8 {
        '8'
    } else {
        '9'
    }
}

/// Parse a string of decimal digits into a `u64`; `None` when it is empty,
/// holds a non-digit or overflows (like `str::parse::<u64>` on digit strings).
pub fn parse_digits_u64(s: &str) -> (r: Option<u64>)
    ensures
        r matches Some(v) ==> s@.len() > 0 && all_digits(s@) && v == digits_value(s@),
        r is None ==> s@.len() == 0 || !all_digits(s@) || digits_value(s@) > u64::MAX,
{
    let n = s.unicode_len();
    if n == 0 {
        return None;
    }
    let mut value: u64 = 0;
    let mut i: usize = 0;
    while i < n
        invariant
            n == s@.len(),
            0 <= i <= n,
            all_digits(s@.subrange(0, i as int)),
            value == digits_value(s@.subrange(0, i as int)),
        decreases n - i,
    {
        let c = s.get_char(i);
        if !('0' <= c && c <= '9') {
            return None;
        }
        let d = (c as u32 - 48) as u64;
        proof {
            assert(s@.subrange(0, i + 1).drop_last() =~= s@.subrange(0, i as int));
        }
        match value.checked_mul(10) {
            Some(t) => match t.checked_add(d) {
                Some(v) => {
                    value = v;
                },
                None => {
                    proof {
                        if all_digits(s@) {
                            lemma_digits_value_prefix_grows(s@, i + 1);
                        }
                    }
                    return None;
                },
            },
            None => {
                proof {
                    if all_digits(s@) {
                        lemma_digits_value_prefix_grows(s@, i + 1);
                    }
                }
                return None;
            },
        }
        i += 1;
    }
    proof {
        assert(s@.subrange(0, n as int) =~= s@);
    }
    Some(value)
}

/// The value of a digit string is at least the value of each of its prefixes.
proof fn lemma_digits_value_prefix_grows(s: Seq<char>, k: int)
    requires
        0 <= k <= s.len(),
        all_digits(s),
    ensures
        digits_value(s) >= digits_value(s.subrange(0, k)),
    decreases s.len() - k,
{
    if k < s.len() {
        lemma_digits_value_prefix_grows(s, k + 1);
        assert(s.subrange(0, k + 1).drop_last() =~= s.subrange(0, k));
    } else {
        assert(s.subrange(0, k) =~= s);
    }
}

/// Index of the first occurrence of `c` in `s`, or `-1`.
pub open spec fn index_of_char(s: Seq<char>, c: char) -> int
    decreases s.len(),
{
    if s.len() == 0 {
        -1
    } else if s[0] == c {
        0
    } else {
        let r = index_of_char(s.drop_first(), c);
        if r < 0 {
            -1
        } else {
            r + 1
        }
    }
}

pub proof fn lemma_index_of_char(s: Seq<char>, c: char)
    ensures
        -1 <= index_of_char(s, c) < s.len(),
        index_of_char(s, c) >= 0 ==> s[index_of_char(s, c)] == c,
        forall|k: int|
            0 <= k < s.len() && (index_of_char(s, c) < 0 || k < index_of_char(s, c)) ==> s[k]
                != c,
    decreases s.len(),
{
    if s.len() > 0 && s[0] != c {
        lemma_index_of_char(s.drop_first(), c);
        assert forall|k: int|
            0 <= k < s.len() && (index_of_char(s, c) < 0 || k < index_of_char(s, c)) implies s[k]
            != c by {
            if k > 0 {
                assert(s[k] == s.drop_first()[k - 1]);
            }
        }
    }
}

/// The first `k` characters are not `c` and `s[k]` is: `k` is the first index.
pub proof fn lemma_index_of_char_at(s: Seq<char>, c: char, k: int)
    requires
        0 <= k <= s.len(),
        forall|i: int| 0 <= i < k ==> s[i] != c,
        k < s.len() ==> s[k] == c,
    ensures
        index_of_char(s, c) == if k < s.len() { k } else { -1 },
    decreases s.len(),
{
    if s.len() > 0 && k > 0 {
        assert forall|i: int| 0 <= i < k - 1 implies s.drop_first()[i] != c by {
            assert(s.drop_first()[i] == s[i + 1]);
        }
        lemma_index_of_char_at(s.drop_first(), c, k - 1);
    }
}

/// Position of the first `c` in `s` at or after `from`.
pub fn find_char(s: &str, c: char, from: usize) -> (r: Option<usize>)
    requires
        from <= s@.len(),
    ensures
        r matches Some(i) ==> from <= i < s@.len() && s@[i as int] == c && forall|k: int|
            from <= k < i ==> s@[k] != c,
        r is None ==> forall|k: int| from <= k < s@.len() ==> s@[k] != c,
{
    let n = s.unicode_len();
    let mut i = from;
    while i < n
        invariant
            n == s@.len(),
            from <= i <= n,
            forall|k: int| from <= k < i ==> s@[k] != c,
        decreases n - i,
    {
        if s.get_char(i) == c {
            return Some(i);
        }
        i += 1;
    }
    None
}

/// The characters of `s` between `from` and `to`.
pub fn substring(s: &str, from: usize, to: usize) -> (r: &str)
    requires
        from <= to <= s@.len(),
    ensures
        r@ == s@.subrange(from as int, to as int),
{
    s.substring_char(from, to)
}

/// The `i32` value of a text, as `str::parse::<i32>` reads it: an optional
/// `+` or `-` sign followed by at least one decimal digit, within range.
pub open spec fn i32_of_text(s: Seq<char>) -> Option<i32> {
    if s.len() == 0 {
        None
    } else if s[0] == '-' || s[0] == '+' {
        let t = s.drop_first();
        let v = if s[0] == '-' {
            -digits_value(t)
        } else {
            digits_value(t) as int
        };
        if t.len() > 0 && all_digits(t) && i32::MIN <= v <= i32::MAX {
            Some(v as i32)
        } else {
            None
        }
    } else if all_digits(s) && digits_value(s) <= i32::MAX {
        Some(digits_value(s) as i32)
    } else {
        None
    }
}

/// Parse an `i32` like `str::parse::<i32>`.
pub fn parse_i32(s: &str) -> (r: Option<i32>)
    ensures
        r == i32_of_text(s@),
{
    let n = s.unicode_len();
    if n == 0 {
        return None;
    }
    let first = s.get_char(0);
    if first == '-' || first == '+' {
        let t = substring(s, 1, n);
        proof {
            assert(t@ =~= s@.drop_first());
        }
        if t.unicode_len() == 0 {
            return None;
        }
        match parse_digits_u64(t) {
            None => {
                proof {
                    if t@.len() > 0 && all_digits(t@) {
                        assert(digits_value(t@) > u64::MAX);
                    }
                }
                None
            },
            Some(v) => {
                if first == '-' {
                    if v <= 2147483648 {
                        Some((0 - (v as i64)) as i32)
                    } else {
                        None
                    }
                } else {
                    if v <= 2147483647 {
                        Some(v as i32)
                    } else {
                        None
                    }
                }
            },
        }
    } else {
        match parse_digits_u64(s) {
            None => None,
            Some(v) => {
                if v <= 2147483647 {
                    Some(v as i32)
                } else {
                    None
                }
            },
        }
    }
}

/// Whether `s` is exactly the text `lit`.
pub fn str_equals(s: &str, lit: &str) -> (r: bool)
    ensures
        r == (s@ == lit@),
{
    let n = s.unicode_len();
    let m = lit.unicode_len();
    if n != m {
        return false;
    }
    let mut i: usize = 0;
    while i < n
        invariant
            n == s@.len(),
            m == lit@.len(),
            n == m,
            0 <= i <= n,
            forall|k: int| 0 <= k < i ==> s@[k] == lit@[k],
        decreases n - i,
    {
        if s.get_char(i) != lit.get_char(i) {
            return false;
        }
        i += 1;
    }
    proof {
        assert(s@ =~= lit@);
    }
    true
}

} // verus!
