use hexsnake::daily::{iso_from_days, seed_for_day, today_iso, unix_days};

#[test]
fn iso_dates_are_correct() {
    assert_eq!(iso_from_days(0), "1970-01-01");
    assert_eq!(iso_from_days(20_617), "2026-06-13");
}

#[test]
fn seed_is_stable_and_32_bit() {
    let a = seed_for_day(20_617, 42);
    let b = seed_for_day(20_617, 42);
    assert_eq!(a, b, "same day + secret gives the same seed");
    assert!(a <= u64::from(u32::MAX));
    assert_ne!(a, seed_for_day(20_618, 42), "different days differ");
}

#[test]
fn leap_day_and_today_are_formatted() {
    assert_eq!(iso_from_days(19_782), "2024-02-29");
    assert_eq!(iso_from_days(-1), "1969-12-31");
    let days = unix_days();
    assert!(days > 19_000);
    assert_eq!(today_iso().len(), 10);
}
