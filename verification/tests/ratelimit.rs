use hexsnake::ratelimit::RateLimiter;

/// An IPv4 address in its IPv6-mapped 128-bit form.
fn v4(a: u8, b: u8, c: u8, d: u8) -> u128 {
    0xffff_0000_0000u128 | (u128::from(a) << 24) | (u128::from(b) << 16) | (u128::from(c) << 8) | u128::from(d)
}

#[test]
fn allows_up_to_limit_then_blocks() {
    let mut rl = RateLimiter::per_minute(3);
    let ip = v4(10, 0, 0, 1);
    assert!(rl.check(ip));
    assert!(rl.check(ip));
    assert!(rl.check(ip));
    assert!(!rl.check(ip), "fourth hit in the window is blocked");
}

#[test]
fn separate_ips_have_separate_budgets() {
    let mut rl = RateLimiter::per_minute(1);
    let a = v4(10, 0, 0, 1);
    let b = v4(10, 0, 0, 2);
    assert!(rl.check(a));
    assert!(rl.check(b), "different IP is independent");
    assert!(!rl.check(a));
}

#[test]
fn zero_disables_limiting() {
    let mut rl = RateLimiter::per_minute(0);
    let ip = v4(10, 0, 0, 1);
    for _ in 0..1000 {
        assert!(rl.check(ip));
    }
}

#[test]
fn window_expiry_restores_the_budget() {
    let mut rl = RateLimiter::per_minute(1);
    let ip = v4(192, 168, 1, 7);
    assert!(rl.check_at(ip, 1_000));
    assert!(!rl.check_at(ip, 1_059), "still inside the first window");
    assert!(rl.check_at(ip, 1_060), "a new window starts after sixty seconds");
    assert!(!rl.check_at(ip, 1_061));
}

#[test]
fn refused_client_stays_refused_for_its_window() {
    let mut rl = RateLimiter::per_minute(2);
    let ip = v4(10, 1, 2, 3);
    assert!(rl.check_at(ip, 50));
    assert!(rl.check_at(ip, 51));
    assert!(!rl.check_at(ip, 52));
    for t in 53..110 {
        assert!(!rl.check_at(ip, t), "refused at {t}");
    }
    assert!(rl.check_at(ip, 110));
}

#[test]
fn pruning_keeps_live_windows() {
    let mut rl = RateLimiter::per_minute(1);
    for i in 0..10_001u128 {
        assert!(rl.check_at(i, 0));
    }
    let live = 20_000u128;
    assert!(rl.check_at(live, 100));
    // The map is now over the threshold; old windows are dropped, the live
    // one is kept and still counts.
    assert!(rl.check_at(30_000, 101));
    assert!(!rl.check_at(live, 102));
    assert!(rl.check_at(5, 103), "expired window was pruned or reset");
}

#[test]
fn clock_going_backwards_keeps_the_window() {
    let mut rl = RateLimiter::per_minute(1);
    let ip = v4(10, 0, 0, 9);
    assert!(rl.check_at(ip, 500));
    assert!(!rl.check_at(ip, 400), "earlier time counts in the same window");
}
