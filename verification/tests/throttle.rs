use ozd::throttle::{BgThrottle, BgThrottleConfig};

const MS: u64 = 1_000_000;
const SEC: u128 = 1_000_000_000;

fn mk(max: u64, min: u64, busy_micro_ops: u64) -> BgThrottle {
    BgThrottle::new(
        BgThrottleConfig {
            max_bytes_per_sec: max,
            min_bytes_per_sec: min,
            fg_busy_micro_ops: busy_micro_ops,
        },
        0,
        0,
    )
}

#[test]
fn pays_forward_and_paces_by_rate() {
    // the rate is fixed (min = max): the bucket alone decides
    let mut t = mk(1 << 20, 1 << 20, u64::MAX);
    // the first second's budget is there at the start: no pause
    assert_eq!(t.acquire_delay(1 << 20, 0, 0), 0);
    // a debt of 512 KiB at 1 MiB/s is half a second
    let d = t.acquire_delay(512 << 10, 0, 0);
    assert!((SEC * 4 / 10..=SEC * 6 / 10).contains(&d), "{d}");
    assert_eq!(d, SEC / 2);
    // two seconds later the budget is full again
    assert_eq!(t.acquire_delay(1 << 20, 2000 * MS, 0), 0);
}

#[test]
fn aimd_halves_on_busy_floor_and_recovers() {
    let mb = 1 << 20;
    let mut t = mk(100 * mb, 10 * mb, 50_000_000);
    assert_eq!(t.rate_bps(), 100 * mb);
    // 200 operations in 1.1 s are busy: half the rate
    let _ = t.acquire_delay(1, 1100 * MS, 200);
    assert_eq!(t.rate_bps() / mb, 50);
    // two more busy windows: 25, then 12.5
    let _ = t.acquire_delay(1, 2200 * MS, 400);
    let _ = t.acquire_delay(1, 3300 * MS, 600);
    assert_eq!(t.rate_bps() / mb, 12);
    let _ = t.acquire_delay(1, 4400 * MS, 800);
    assert_eq!(t.rate_bps() / mb, 10, "the floor holds");
    // quiet windows: a tenth of the ceiling each
    let _ = t.acquire_delay(1, 5500 * MS, 805);
    assert_eq!(t.rate_bps() / mb, 20);
    let _ = t.acquire_delay(1, 6600 * MS, 810);
    assert_eq!(t.rate_bps() / mb, 30);
}

#[test]
fn zero_max_disables() {
    let t = mk(0, 0, 50_000_000);
    assert!(!t.charges(10 << 20));
    assert_eq!(t.rate_bps(), 0);
    assert!(!mk(1, 1, 1).charges(0));
    assert!(mk(1, 1, 1).charges(1));
}

#[test]
fn small_budgets_are_not_rounded() {
    // a tenth of 15 is one and a half
    let mut t = mk(15, 0, 1_000_000);
    let mut now = 0;
    let mut ops = 0;
    for _ in 0..4 {
        now += 1000 * MS;
        ops += 100;
        let _ = t.acquire_delay(1, now, ops);
    }
    // 15, halved four times
    assert_eq!(t.rate, 937_500_000);
    assert_eq!(t.rate_bps(), 0);
    now += 1000 * MS;
    let _ = t.acquire_delay(1, now, ops);
    assert_eq!(t.rate, 937_500_000 + 1_500_000_000);
    assert_eq!(t.rate_bps(), 2);
    // four bytes over, at 2.4375 bytes per second
    let spent = t.tokens;
    let d = t.acquire_delay(4, now, ops);
    assert_eq!(t.tokens, spent - 4 * SEC as i128 * SEC as i128);
    assert_eq!(d, (-t.tokens as u128).div_ceil(t.rate));
}
