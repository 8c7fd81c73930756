//! Daily challenge: a deterministic per-day seed and the current UTC date.
//!
//! The seed is derived purely from the day number and a server secret, so it
//! is stable for the whole day and identical across restarts.
use vstd::prelude::*;

use crate::board::BoundaryMode;
use crate::text::{padded, push_char, push_padded};

verus! {

/// Board the daily challenge is played on (fixed: medium field, walls).
pub const DAILY_WIDTH: i32 = 24;

pub const DAILY_HEIGHT: i32 = 18;

pub const DAILY_BOUNDARY: BoundaryMode = BoundaryMode::Walls;

#[verifier::external_type_specification]
#[verifier::external_body]
pub struct ExSystemTime(std::time::SystemTime);

/// `SystemTime::now` (std): the current time of the system clock. Nothing is
/// stated of it: it is the time.
#[verifier::external_body]
fn system_now() -> (t: std::time::SystemTime) {
    std::time::SystemTime::now()
}

/// `SystemTime::duration_since(UNIX_EPOCH)` (std): the time elapsed since
/// the Unix epoch, or `None` (its error) when the clock reads earlier than
/// the epoch. Which of the two, and which duration, is not stated: it
/// depends on the clock.
#[verifier::external_body]
fn since_epoch(t: &std::time::SystemTime) -> (d: Option<core::time::Duration>) {
    t.duration_since(std::time::UNIX_EPOCH).ok()
}

/// `Duration::as_nanos` (std): the whole nanoseconds of a duration. A
/// `Duration` holds at most `u64::MAX` whole seconds and less than a second
/// besides, which bounds the result; the value itself is not named.
#[verifier::external_body]
fn duration_nanos(d: &core::time::Duration) -> (n: u128)
    ensures
        n <= 18_446_744_073_709_551_615_999_999_999,
{
    d.as_nanos()
}

/// Nanoseconds since the Unix epoch according to the system clock, 0 if
/// the clock is set before the epoch.
pub(crate) fn wall_clock_nanos() -> (n: u128)
    ensures
        n <= 18_446_744_073_709_551_615_999_999_999,
{
    let now = system_now();
    match since_epoch(&now) {
        Some(d) => duration_nanos(&d),
        None => 0,
    }
}

/// Whole days in a number of nanoseconds.
pub open spec fn days_of_nanos(nanos: u128) -> int {
    (nanos / 1_000_000_000 / 86_400) as int
}

/// Days since the Unix epoch (UTC), wall-clock based.
pub fn unix_days() -> (d: i64)
    ensures
        0 <= d <= 213_503_982_334_601,
{
    days_from_nanos(wall_clock_nanos())
}

/// Whole days of a clock reading.
pub fn days_from_nanos(nanos: u128) -> (d: i64)
    requires
        nanos <= 18_446_744_073_709_551_615_999_999_999,
    ensures
        d == days_of_nanos(nanos),
        0 <= d <= 213_503_982_334_601,
{
    let secs = nanos / 1_000_000_000;
    (secs / 86_400) as i64
}

/// Current UTC date as "YYYY-MM-DD".
pub fn today_iso() -> (s: String)
    ensures
        exists|days: i64| 0 <= days <= 213_503_982_334_601 && #[trigger] is_iso_date_of(s@, days),
{
    let days = unix_days();
    iso_from_days(days)
}

/// A date formatted `YYYY-MM-DD` (the year zero-padded to four digits).
pub open spec fn iso_format(y: int, m: int, d: int) -> Seq<char> {
    padded(y, 4) + seq!['-'] + padded(m, 2) + seq!['-'] + padded(d, 2)
}

pub open spec fn is_leap(y: int) -> bool {
    (y % 4 == 0 && y % 100 != 0) || y % 400 == 0
}

pub open spec fn days_in_month(y: int, m: int) -> int {
    if m == 2 {
        if is_leap(y) {
            29
        } else {
            28
        }
    } else if m == 4 || m == 6 || m == 9 || m == 11 {
        30
    } else {
        31
    }
}

/// A calendar date of the proleptic Gregorian calendar.
pub open spec fn valid_date(y: int, m: int, d: int) -> bool {
    1 <= m <= 12 && 1 <= d <= days_in_month(y, m)
}

/// `text` is the ISO form of the calendar date `days` days after 1970-01-01
/// (that date is unique: see [`lemma_day_number_unique`]).
pub open spec fn is_iso_date_of(text: Seq<char>, days: i64) -> bool {
    exists|y: int, m: int, d: int|
        valid_date(y, m, d) && day_number(y, m, d) == days && text == #[trigger] iso_format(
            y,
            m,
            d,
        )
}

/// Format a day number (since the epoch) as an ISO date.
pub fn iso_from_days(days: i64) -> (s: String)
    requires
        days <= i64::MAX - 719_468,
    ensures
        is_iso_date_of(s@, days),
{
    let (y, m, d) = civil_from_days(days);
    let mut out = String::new();
    push_padded(&mut out, y, 4);
    push_char(&mut out, '-');
    push_padded(&mut out, m as i64, 2);
    push_char(&mut out, '-');
    push_padded(&mut out, d as i64, 2);
    proof {
        assert(out@ =~= iso_format(y as int, m as int, d as int));
    }
    out
}

/// The golden-ratio increment of splitmix64.
pub open spec fn splitmix_golden() -> u64 {
    0x9E37_79B9_7F4A_7C15
}

/// The splitmix64 finalizer (Steele, Lea and Flood): xor-shift by 30,
/// multiply, xor-shift by 27, multiply, xor-shift by 31.
pub open spec fn splitmix64_finalizer(z: u64) -> u64 {
    let a = vstd::wrapping::u64_specs::wrapping_mul(z ^ (z >> 30u64), 0xBF58_476D_1CE4_E5B9u64);
    let b = vstd::wrapping::u64_specs::wrapping_mul(a ^ (a >> 27u64), 0x94D0_49BB_1331_11EBu64);
    b ^ (b >> 31u64)
}

/// Multiplying by an odd constant modulo 2^64 is undone by multiplying by
/// its inverse.
proof fn lemma_mul_undone(x: u64, c: u64, c_inv: u64, k: int)
    requires
        k >= 0,
        c as int * c_inv as int == 1 + k * 0x1_0000_0000_0000_0000,
    ensures
        vstd::wrapping::u64_specs::wrapping_mul(vstd::wrapping::u64_specs::wrapping_mul(x, c), c_inv) == x,
{
    let m: int = 0x1_0000_0000_0000_0000;
    let y = vstd::wrapping::u64_specs::wrapping_mul(x, c);
    assert(y as int == (x as int * c as int) % m);
    vstd::arithmetic::div_mod::lemma_mul_mod_noop_left(x as int * c as int, c_inv as int, m);
    assert((x as int * c as int) * c_inv as int == x as int * (c as int * c_inv as int)) by (nonlinear_arith);
    assert(x as int * (1 + k * m) == m * (x as int * k) + x as int) by (nonlinear_arith);
    vstd::arithmetic::div_mod::lemma_mod_multiples_vanish(x as int * k, x as int, m);
    vstd::arithmetic::div_mod::lemma_small_mod(x as nat, m as nat);
}

/// Different inputs give different outputs of the finalizer: it is a
/// bijection on 64-bit words.
pub proof fn lemma_finalizer_injective(x: u64, y: u64)
    requires
        x != y,
    ensures
        splitmix64_finalizer(x) != splitmix64_finalizer(y),
{
    let c1: u64 = 0xBF58_476D_1CE4_E5B9;
    let c2: u64 = 0x94D0_49BB_1331_11EB;
    let x1 = x ^ (x >> 30u64);
    let y1 = y ^ (y >> 30u64);
    assert(x1 != y1) by (bit_vector)
        requires
            x != y,
            x1 == x ^ (x >> 30u64),
            y1 == y ^ (y >> 30u64),
    ;
    let xa = vstd::wrapping::u64_specs::wrapping_mul(x1, c1);
    let ya = vstd::wrapping::u64_specs::wrapping_mul(y1, c1);
    lemma_mul_undone(x1, c1, 0x96de_1b17_3f11_9089, 8125545580553827436);
    lemma_mul_undone(y1, c1, 0x96de_1b17_3f11_9089, 8125545580553827436);
    assert(xa != ya);
    let x2 = xa ^ (xa >> 27u64);
    let y2 = ya ^ (ya >> 27u64);
    assert(x2 != y2) by (bit_vector)
        requires
            xa != ya,
            x2 == xa ^ (xa >> 27u64),
            y2 == ya ^ (ya >> 27u64),
    ;
    let xb = vstd::wrapping::u64_specs::wrapping_mul(x2, c2);
    let yb = vstd::wrapping::u64_specs::wrapping_mul(y2, c2);
    lemma_mul_undone(x2, c2, 0x3196_42b2_d24d_8ec3, 2077064247507883091);
    lemma_mul_undone(y2, c2, 0x3196_42b2_d24d_8ec3, 2077064247507883091);
    assert(xb != yb);
    let xr = xb ^ (xb >> 31u64);
    let yr = yb ^ (yb >> 31u64);
    assert(xr != yr) by (bit_vector)
        requires
            xb != yb,
            xr == xb ^ (xb >> 31u64),
            yr == yb ^ (yb >> 31u64),
    ;
}

/// The day's seed depends on the server secret: for one day, two
/// different secrets give different finalized values (the seed is their
/// low 32 bits).
pub proof fn lemma_daily_seed_keyed_by_secret(days: i64, s1: u64, s2: u64)
    requires
        s1 != s2,
    ensures
        splitmix64_finalizer(vstd::wrapping::u64_specs::wrapping_mul(days as u64, splitmix_golden()) ^ s1)
            != splitmix64_finalizer(
            vstd::wrapping::u64_specs::wrapping_mul(days as u64, splitmix_golden()) ^ s2,
        ),
{
    let h = vstd::wrapping::u64_specs::wrapping_mul(days as u64, splitmix_golden());
    let a = h ^ s1;
    let b = h ^ s2;
    assert(a != b) by (bit_vector)
        requires
            s1 != s2,
            a == h ^ s1,
            b == h ^ s2,
    ;
    lemma_finalizer_injective(a, b);
}

/// The splitmix64 finalizer applied to `day * golden ^ secret`, reduced to 32 bits.
pub open spec fn daily_seed(days: i64, secret: u64) -> u64 {
    let z0 = vstd::wrapping::u64_specs::wrapping_mul(days as u64, 0x9E37_79B9_7F4A_7C15) ^ secret;
    let z1 = vstd::wrapping::u64_specs::wrapping_mul(z0 ^ (z0 >> 30), 0xBF58_476D_1CE4_E5B9);
    let z2 = vstd::wrapping::u64_specs::wrapping_mul(z1 ^ (z1 >> 27), 0x94D0_49BB_1331_11EB);
    (z2 ^ (z2 >> 31)) & 0xFFFF_FFFF
}

/// Deterministic 32-bit daily seed for a given day number and secret.
pub fn seed_for_day(days: i64, secret: u64) -> (s: u64)
    ensures
        s == daily_seed(days, secret),
        s <= u32::MAX,
        s == splitmix64_finalizer(
            vstd::wrapping::u64_specs::wrapping_mul(days as u64, splitmix_golden()) ^ secret,
        ) & 0xFFFF_FFFF,
{
    let mut z = (days as u64).wrapping_mul(0x9E37_79B9_7F4A_7C15) ^ secret;
    z = (z ^ (z >> 30)).wrapping_mul(0xBF58_476D_1CE4_E5B9);
    z = (z ^ (z >> 27)).wrapping_mul(0x94D0_49BB_1331_11EB);
    z ^= z >> 31;
    let r = z & 0xFFFF_FFFF;
    assert(r <= u32::MAX) by (bit_vector)
        requires
            r == z & 0xFFFF_FFFF,
    ;
    r
}

/// Days from 0000-01-01 to the first of January of year `y`.
pub open spec fn days_before_year(y: int) -> int {
    365 * y + (y + 3) / 4 - (y + 99) / 100 + (y + 399) / 400
}

/// Days from the first of January to the first of month `m` of year `y`.
pub open spec fn days_before_month(y: int, m: int) -> int {
    let base: int = if m == 1 {
        0
    } else if m == 2 {
        31
    } else if m == 3 {
        59
    } else if m == 4 {
        90
    } else if m == 5 {
        120
    } else if m == 6 {
        151
    } else if m == 7 {
        181
    } else if m == 8 {
        212
    } else if m == 9 {
        243
    } else if m == 10 {
        273
    } else if m == 11 {
        304
    } else {
        334
    };
    base + if m > 2 && is_leap(y) {
        1int
    } else {
        0int
    }
}

/// Days from 1970-01-01 to the given date.
pub open spec fn day_number(y: int, m: int, d: int) -> int {
    days_before_year(y) + days_before_month(y, m) + d - 1 - days_before_year(1970)
}

/// Howard Hinnant's `civil_from_days`: day number → (year, month, day).
#[verifier::rlimit(100)]
pub fn civil_from_days(z: i64) -> (r: (i64, u32, u32))
    requires
        z <= i64::MAX - 719_468,
    ensures
        valid_date(r.0 as int, r.1 as int, r.2 as int),
        day_number(r.0 as int, r.1 as int, r.2 as int) == z,
{
    let z = z + 719_468;
    let era = if z >= 0 { z / 146_097 } else { -((146_096 - z) / 146_097) };
    proof {
        lemma_era(z as int);
    }
    let doe = z - era * 146_097;
    assert(0 <= doe < 146_097);
    let yoe = (doe - doe / 1460 + doe / 36_524 - doe / 146_096) / 365;
    proof {
        lemma_year_of_era(doe as int);
    }
    assert(0 <= yoe <= 399);
    let y = yoe + era * 400;
    let doy = doe - (365 * yoe + yoe / 4 - yoe / 100);
    assert(0 <= doy <= 365);
    let mp = (5 * doy + 2) / 153;
    proof {
        lemma_month_of_year(doy as int, yoe as int);
    }
    assert(0 <= mp <= 11);
    let d = (doy - (153 * mp + 2) / 5 + 1) as u32;
    let m = (if mp < 10 { mp + 3 } else { mp - 9 }) as u32;
    let r = (if m <= 2 { y + 1 } else { y }, m, d);
    proof {
        lemma_civil_assembly(z as int, era as int, yoe as int, doy as int, mp as int);
    }
    r
}

/// The era (400-year block) of a day count from 0000-03-01 and the day within it.
proof fn lemma_era(z: int)
    ensures
        z < 0 ==> -((146_096 - z) / 146_097) == z / 146_097,
        0 <= z - (z / 146_097) * 146_097 < 146_097,
{
    vstd::arithmetic::div_mod::lemma_fundamental_div_mod(z, 146_097);
    vstd::arithmetic::div_mod::lemma_mod_bound(z, 146_097);
    if z < 0 {
        let q = z / 146_097;
        let r = z % 146_097;
        vstd::arithmetic::div_mod::lemma_fundamental_div_mod_converse(
            146_096 - z,
            146_097,
            -q,
            146_096 - r,
        );
    }
}

proof fn lemma_year_of_era(doe: int)
    requires
        0 <= doe < 146_097,
    ensures
        ({
            let yoe = (doe - doe / 1460 + doe / 36_524 - doe / 146_096) / 365;
            let start = 365 * yoe + yoe / 4 - yoe / 100;
            &&& 0 <= yoe <= 399
            &&& start <= doe
            &&& doe - start <= 365
            &&& doe - start == 365 ==> is_leap(yoe + 1)
        }),
{

}

proof fn lemma_month_of_year(doy: int, yoe: int)
    requires
        0 <= doy <= 365,
        doy == 365 ==> is_leap(yoe + 1),
    ensures
        ({
            let mp = (5 * doy + 2) / 153;
            let d = doy - (153 * mp + 2) / 5 + 1;
            let m = if mp < 10 { mp + 3 } else { mp - 9 };
            &&& 0 <= mp <= 11
            &&& 1 <= d
            &&& valid_date(if m <= 2 { yoe + 1 } else { yoe }, m, d)
        }),
{

}

/// Days before a year shift by whole eras.
proof fn lemma_days_before_year_era(era: int, k: int)
    ensures
        days_before_year(400 * era + k) == 146_097 * era + days_before_year(k),
        is_leap(400 * era + k) == is_leap(k),
{
    vstd::arithmetic::div_mod::lemma_fundamental_div_mod(k + 3, 4);
    vstd::arithmetic::div_mod::lemma_mod_bound(k + 3, 4);
    vstd::arithmetic::div_mod::lemma_fundamental_div_mod_converse(
        400 * era + k + 3,
        4,
        100 * era + (k + 3) / 4,
        (k + 3) % 4,
    );
    vstd::arithmetic::div_mod::lemma_fundamental_div_mod(k + 99, 100);
    vstd::arithmetic::div_mod::lemma_mod_bound(k + 99, 100);
    vstd::arithmetic::div_mod::lemma_fundamental_div_mod_converse(
        400 * era + k + 99,
        100,
        4 * era + (k + 99) / 100,
        (k + 99) % 100,
    );
    vstd::arithmetic::div_mod::lemma_fundamental_div_mod(k + 399, 400);
    vstd::arithmetic::div_mod::lemma_mod_bound(k + 399, 400);
    vstd::arithmetic::div_mod::lemma_fundamental_div_mod_converse(
        400 * era + k + 399,
        400,
        era + (k + 399) / 400,
        (k + 399) % 400,
    );
    vstd::arithmetic::div_mod::lemma_fundamental_div_mod(k, 4);
    vstd::arithmetic::div_mod::lemma_mod_bound(k, 4);
    vstd::arithmetic::div_mod::lemma_fundamental_div_mod_converse(
        400 * era + k,
        4,
        100 * era + k / 4,
        k % 4,
    );
    vstd::arithmetic::div_mod::lemma_fundamental_div_mod(k, 100);
    vstd::arithmetic::div_mod::lemma_mod_bound(k, 100);
    vstd::arithmetic::div_mod::lemma_fundamental_div_mod_converse(
        400 * era + k,
        100,
        4 * era + k / 100,
        k % 100,
    );
    vstd::arithmetic::div_mod::lemma_fundamental_div_mod(k, 400);
    vstd::arithmetic::div_mod::lemma_mod_bound(k, 400);
    vstd::arithmetic::div_mod::lemma_fundamental_div_mod_converse(
        400 * era + k,
        400,
        era + k / 400,
        k % 400,
    );
}

/// A year has 365 days, 366 in leap years.
proof fn lemma_year_length(y: int)
    ensures
        days_before_year(y + 1) == days_before_year(y) + 365 + if is_leap(y) {
            1int
        } else {
            0int
        },
{
}

/// Within an era, the March-based year start equals the January-based count
/// shifted by the leap day.
proof fn lemma_era_year_start(k: int)
    requires
        0 <= k <= 399,
    ensures
        365 * k + k / 4 - k / 100 == days_before_year(k) + (if is_leap(k) {
            1int
        } else {
            0int
        }) - 1,
{
}

proof fn lemma_civil_assembly(zz: int, era: int, yoe: int, doy: int, mp: int)
    requires
        0 <= zz - era * 146_097 < 146_097,
        0 <= yoe <= 399,
        doy == zz - era * 146_097 - (365 * yoe + yoe / 4 - yoe / 100),
        0 <= doy <= 365,
        mp == (5 * doy + 2) / 153,
        0 <= mp <= 11,
    ensures
        ({
            let d = doy - (153 * mp + 2) / 5 + 1;
            let m = if mp < 10 { mp + 3 } else { mp - 9 };
            let y = if m <= 2 { yoe + era * 400 + 1 } else { yoe + era * 400 };
            day_number(y, m, d) == zz - 719_468
        }),
{
    lemma_days_before_year_era(era, yoe);
    lemma_era_year_start(yoe);
    lemma_year_length(400 * era + yoe);
    assert(yoe + era * 400 == 400 * era + yoe);
    assert(days_before_year(1970) == 719_528);
}

/// A day lies within its year: on or after January 1, before next January 1.
proof fn lemma_date_in_year(y: int, m: int, d: int)
    requires
        valid_date(y, m, d),
    ensures
        days_before_year(y) <= days_before_year(y) + days_before_month(y, m) + d - 1 < days_before_year(
            y + 1,
        ),
{
    lemma_year_length(y);
}

/// Years start in increasing order.
proof fn lemma_year_start_monotone(a: int, b: int)
    requires
        a < b,
    ensures
        days_before_year(a + 1) <= days_before_year(b),
    decreases b - a,
{
    lemma_year_length(a);
    if a + 1 < b {
        lemma_year_start_monotone(a + 1, b);
        lemma_year_length(a + 1);
    }
}

/// Distinct calendar dates have distinct day numbers.
pub proof fn lemma_day_number_unique(y1: int, m1: int, d1: int, y2: int, m2: int, d2: int)
    requires
        valid_date(y1, m1, d1),
        valid_date(y2, m2, d2),
        day_number(y1, m1, d1) == day_number(y2, m2, d2),
    ensures
        y1 == y2 && m1 == m2 && d1 == d2,
{
    lemma_date_in_year(y1, m1, d1);
    lemma_date_in_year(y2, m2, d2);
    if y1 < y2 {
        lemma_year_start_monotone(y1, y2);
    } else if y2 < y1 {
        lemma_year_start_monotone(y2, y1);
    }
}

/// The calendar date of a day number, as computed by [`civil_from_days`],
/// is the only valid date with that number.
pub proof fn lemma_iso_date_unique(text1: Seq<char>, text2: Seq<char>, days: i64)
    requires
        is_iso_date_of(text1, days),
        is_iso_date_of(text2, days),
    ensures
        text1 == text2,
{
    let (y1, m1, d1) = choose|y: int, m: int, d: int|
        valid_date(y, m, d) && day_number(y, m, d) == days && text1 == #[trigger] iso_format(
            y,
            m,
            d,
        );
    let (y2, m2, d2) = choose|y: int, m: int, d: int|
        valid_date(y, m, d) && day_number(y, m, d) == days && text2 == #[trigger] iso_format(
            y,
            m,
            d,
        );
    lemma_day_number_unique(y1, m1, d1, y2, m2, d2);
}

} // verus!
