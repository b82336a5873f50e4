use ozd::diskslow::{DiskSlowConfig, DiskSlowMonitor};

const REL_FACTOR: f64 = 4.0;

fn feed(m: &mut DiskSlowMonitor, shard: usize, ms: u64, n: usize) {
    for _ in 0..n {
        m.record(shard, ms * 1000);
    }
}

fn verdicts(m: &DiskSlowMonitor, cfg: &DiskSlowConfig) -> Vec<bool> {
    let rel_us = (m.median_us(cfg) as f64 * REL_FACTOR) as u64;
    m.verdicts(cfg, rel_us)
}

#[test]
fn outlier_vs_fleet_median_is_slow_idle_fleet_is_not() {
    let cfg = DiskSlowConfig::default();
    let mut m = DiskSlowMonitor::new(5);
    // an even fleet at 12 ms: nobody is slow
    for i in 0..5 {
        feed(&mut m, i, 12, 64);
    }
    assert!(verdicts(&m, &cfg).iter().all(|v| !v), "an even fleet does not flap");
    // disk 2 sinks to 400 ms: above the floor and above 4 medians
    feed(&mut m, 2, 400, 64);
    let v = verdicts(&m, &cfg);
    assert!(v[2], "the outlier is caught: ewma={} ms", m.ewma_ms(2));
    assert_eq!(v.iter().filter(|x| **x).count(), 1, "the others are well");
}

#[test]
fn warmup_and_uniform_slow_fleet_use_abs_floor() {
    let cfg = DiskSlowConfig::default();
    let mut m = DiskSlowMonitor::new(3);
    feed(&mut m, 0, 500, 8); // too few samples
    assert!(!verdicts(&m, &cfg)[0], "no verdict before min_samples");
    // the whole fleet at 400 ms: the threshold is 4 * 400 ms, nobody stands out
    for i in 0..3 {
        feed(&mut m, i, 400, 64);
    }
    assert!(verdicts(&m, &cfg).iter().all(|v| !v));
    // one at 2 s is caught even so
    feed(&mut m, 1, 2000, 64);
    assert!(verdicts(&m, &cfg)[1]);
}

#[test]
fn ewma_smooths_single_spike() {
    let cfg = DiskSlowConfig::default();
    let mut m = DiskSlowMonitor::new(3);
    for i in 0..3 {
        feed(&mut m, i, 10, 64);
    }
    // one spike of a second: 10 * 7/8 + 1000/8 is about 134 ms, below the floor
    m.record(0, 1_000_000);
    assert!(!verdicts(&m, &cfg)[0], "ewma={} ms", m.ewma_ms(0));
    assert!((130..=135).contains(&m.ewma_ms(0)));
}

#[test]
fn samples_are_counted_per_shard() {
    let mut m = DiskSlowMonitor::new(2);
    feed(&mut m, 1, 7, 3);
    m.record(5, 100); // no such shard
    assert_eq!((m.samples(0), m.samples(1), m.samples(5)), (0, 3, 0));
    assert_eq!((m.ewma_ms(0), m.ewma_ms(1), m.ewma_ms(5)), (0, 7, 0));
}
