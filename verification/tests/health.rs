use ozd::domain::ShardStatus;
use ozd::health::{FsmState, HealthFsm, Observation};
use ozd::latency::{bucket_idx, RollingP99};
use Observation::{Degraded, Down, Healthy};

#[test]
fn single_glitch_does_not_demote() {
    let mut f = HealthFsm::new(3, 2);
    assert_eq!(f.observe(Degraded), ShardStatus::Online); // one glitch: stay
    assert_eq!(f.observe(Healthy), ShardStatus::Online); // the count starts over
    assert_eq!(f.observe(Degraded), ShardStatus::Online);
    assert_eq!(f.observe(Degraded), ShardStatus::Online);
    assert_eq!(f.observe(Degraded), ShardStatus::Suspect); // three in a row
}

#[test]
fn escalates_to_faulted_and_probes_back() {
    let mut f = HealthFsm::new(2, 2);
    assert_eq!(f.observe(Down), ShardStatus::Suspect); // hard: Suspect at once
    assert_eq!(f.observe(Down), ShardStatus::Suspect); // one failure in Suspect
    assert_eq!(f.observe(Down), ShardStatus::Faulted); // two: Faulted
    // the way back is a probe period, not a jump to Online
    assert_eq!(f.observe(Healthy), ShardStatus::Suspect); // Returning
    assert_eq!(f.state, FsmState::Returning);
    assert_eq!(f.observe(Healthy), ShardStatus::Online); // recover_after = 2
}

#[test]
fn relapse_on_probe_goes_back_to_faulted() {
    let mut f = HealthFsm::new(1, 3);
    f.observe(Down); // Suspect
    f.observe(Down); // Faulted (suspect_after = 1)
    f.observe(Healthy); // Returning
    assert_eq!(f.observe(Down), ShardStatus::Faulted); // a relapse
    // and the whole probe period again
    f.observe(Healthy);
    f.observe(Healthy);
    assert_eq!(f.observe(Healthy), ShardStatus::Online);
}

#[test]
fn suspect_recovers_after_consecutive_healthy() {
    let mut f = HealthFsm::new(2, 3);
    f.observe(Degraded);
    f.observe(Degraded); // Suspect
    assert_eq!(f.status(), ShardStatus::Suspect);
    f.observe(Healthy);
    f.observe(Healthy);
    assert_eq!(f.observe(Degraded), ShardStatus::Suspect); // the good ones are forgotten
    f.observe(Healthy);
    f.observe(Healthy);
    assert_eq!(f.observe(Healthy), ShardStatus::Online);
}

#[test]
fn p99_lands_in_tail_bucket_and_needs_warmup() {
    let mut h = RollingP99::new(60_000_000, 64);
    // nothing before the warm-up: the fixed threshold decides
    for i in 0..50 {
        h.record_at(5_000, i);
    }
    assert_eq!(h.p99_at(100), None, "fewer than min_samples");
    // a hundred at 5 ms and two at 500 ms: p99 in the tail bucket
    for i in 0..50 {
        h.record_at(5_000, 100 + i);
    }
    h.record_at(500_000, 200);
    h.record_at(500_000, 201);
    let p = h.p99_at(300).unwrap();
    assert!((400_000..700_000).contains(&p), "{p}");
    assert_eq!(p, 524_288);
    // an even load without a tail: a small p99
    let mut h2 = RollingP99::new(60_000_000, 64);
    for i in 0..200 {
        h2.record_at(3_000, i);
    }
    let p2 = h2.p99_at(300).unwrap();
    assert!(p2 <= 8_000, "{p2}");
}

#[test]
fn window_rotation_forgets_old_spikes() {
    let w_us: u64 = 10_000_000;
    let mut h = RollingP99::new(w_us, 10);
    for i in 0..100 {
        h.record_at(400_000, i); // a storm of 400 ms in the first window
    }
    assert!(h.p99_at(1000).unwrap() >= 400_000);
    // the next window is even at 2 ms; the storm is still seen
    for i in 0..100 {
        h.record_at(2_000, w_us + i);
    }
    assert!(h.p99_at(w_us + 1000).unwrap() >= 400_000);
    // one more window and the storm is forgotten
    for i in 0..100 {
        h.record_at(2_000, w_us * 2 + i);
    }
    let p = h.p99_at(w_us * 2 + 1000).unwrap();
    assert!(p <= 8_000, "{p}");
    // a long silence makes both windows stale: warm up again
    assert_eq!(h.p99_at(w_us * 10), None);
}

#[test]
fn buckets_double() {
    assert_eq!(bucket_idx(0), 0);
    let mut last = 0;
    for us in [1u64, 100, 1_000, 10_000, 100_000, 1_000_000, u64::MAX] {
        let b = bucket_idx(us);
        assert!(b >= last && b < 22);
        last = b;
    }
    assert_eq!(bucket_idx(u64::MAX), 21);
}

#[test]
fn percentile_bounds_the_sample() {
    let mut h = RollingP99::new(60_000_000, 1);
    let mut samples: Vec<u64> = (0..500u64).map(|i| 100 + i * i * 37 % 90_000).collect();
    for (i, us) in samples.iter().enumerate() {
        h.record_at(*us, i as u64);
    }
    samples.sort();
    // the sample that at most one in a hundred exceeds
    let nth = samples[samples.len() * 99 / 100 - 1];
    let p = h.p99_at(1000).unwrap();
    assert!(p > nth && p <= 2 * nth, "{p} for {nth}");
}
