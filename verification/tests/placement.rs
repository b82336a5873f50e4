use ozd::domain::{BlockKey, Capacity, ShardId, ShardStatus};
use ozd::placement::{placement_hash, select, topology, Candidate};
use ozd::ports::PlacementPolicy;

/// Weighted rendezvous hashing: the score is -weight / ln(h), h in (0, 1).
struct RendezvousHrw {
    fill_block: f64,
}

impl Default for RendezvousHrw {
    fn default() -> Self {
        Self { fill_block: 0.95 }
    }
}

/// An integer that orders as the float does.
fn ordered(x: f64) -> i64 {
    let b = x.to_bits() as i64;
    b ^ (((b >> 63) as u64) >> 1) as i64
}

impl PlacementPolicy for RendezvousHrw {
    fn select(
        &self,
        key: &BlockKey,
        topology: &Vec<(ShardId, Capacity, ShardStatus)>,
        rf: usize,
    ) -> Vec<ShardId> {
        let candidates = topology
            .iter()
            .map(|(id, cap, st)| {
                let used = 1.0 - cap.free_bytes as f64 / cap.total_bytes as f64;
                let mut w = if cap.free_bytes > 0 { cap.free_bytes as f64 } else { 1.0 };
                if *st == ShardStatus::Suspect {
                    w *= 0.01;
                }
                let h = (placement_hash(key.as_bytes(), *id) as f64 + 1.0)
                    / (u64::MAX as f64 + 2.0);
                Candidate {
                    id: *id,
                    status: *st,
                    full: cap.total_bytes > 0 && used >= self.fill_block,
                    score: ordered(-w / h.ln()),
                }
            })
            .collect();
        select(&candidates, rf)
    }
}

fn topo(n: u16) -> Vec<(ShardId, Capacity, ShardStatus)> {
    (0..n)
        .map(|i| {
            (
                ShardId(i),
                Capacity { total_bytes: 1 << 40, free_bytes: 1 << 39 },
                ShardStatus::Online,
            )
        })
        .collect()
}

#[test]
fn deterministic_and_distinct() {
    let p = RendezvousHrw::default();
    let t = topo(8);
    let k = BlockKey::from("/blocks/abc");
    let a = p.select(&k, &t, 2);
    let b = p.select(&k, &t, 2);
    assert_eq!(a, b);
    assert_eq!(a.len(), 2);
    assert_ne!(a[0], a[1]);
}

#[test]
fn add_disk_moves_about_one_over_n() {
    let p = RendezvousHrw::default();
    let t8 = topo(8);
    let t9 = topo(9);
    let total = 4000;
    let mut moved = 0;
    for i in 0..total {
        let k = BlockKey::new(format!("/blocks/key-{i}").into_bytes());
        let before = p.select(&k, &t8, 1);
        let after = p.select(&k, &t9, 1);
        if before != after {
            moved += 1;
            // a key only ever moves to the new shard
            assert_eq!(after, [ShardId(8)]);
        }
    }
    let frac = moved as f64 / total as f64;
    // about 1/9; the window is wide
    assert!(frac > 0.05 && frac < 0.20, "moved fraction {frac}");
}

#[test]
fn skips_faulted_and_full() {
    let p = RendezvousHrw::default();
    let mut t = topo(3);
    t[0].2 = ShardStatus::Faulted;
    t[1].1 = Capacity { total_bytes: 100, free_bytes: 2 }; // 98% used
    let k = BlockKey::from("/blocks/zzz");
    let sel = p.select(&k, &t, 3);
    assert_eq!(sel, vec![ShardId(2)]);
}

#[test]
fn suspects_come_last() {
    let p = RendezvousHrw::default();
    let mut t = topo(4);
    t[2].2 = ShardStatus::Suspect;
    let mut last = 0;
    for i in 0..200 {
        let k = BlockKey::new(format!("key {i}").into_bytes());
        let sel = p.select(&k, &t, 4);
        assert_eq!(sel.len(), 4);
        if sel[3] == ShardId(2) {
            last += 1;
        }
    }
    assert!(last > 180, "{last}");
}

#[test]
fn hash_is_the_known_one() {
    // the seed is the shard's number plus one
    assert_eq!(placement_hash(b"abc", ShardId(0)), xxhash_rust::xxh3::xxh3_64_with_seed(b"abc", 1));
    assert_ne!(placement_hash(b"abc", ShardId(0)), placement_hash(b"abc", ShardId(1)));
}

#[test]
fn equal_scores_keep_their_order() {
    let c = |id: u16, score: i64| Candidate {
        id: ShardId(id),
        status: ShardStatus::Online,
        full: false,
        score,
    };
    let v = vec![c(0, 5), c(1, 9), c(2, 5), c(3, -1)];
    assert_eq!(select(&v, 4), [ShardId(1), ShardId(0), ShardId(2), ShardId(3)]);
    assert_eq!(select(&v, 2), [ShardId(1), ShardId(0)]);
}

#[test]
fn topology_joins_what_is_known() {
    let cap = |t: u64, f: u64| Capacity { total_bytes: t, free_bytes: f };
    let t = topology(
        &vec![ShardStatus::Online, ShardStatus::Online, ShardStatus::Faulted, ShardStatus::Online],
        &vec![false, true, true, false],
        &vec![None, None, Some(cap(9, 8)), None],
        &vec![Some(cap(4, 3)), Some(cap(5, 4)), Some(cap(1, 1)), None],
    );
    assert_eq!(t[0], (ShardId(0), cap(4, 3), ShardStatus::Online));
    assert_eq!(t[1], (ShardId(1), cap(5, 4), ShardStatus::Suspect));
    assert_eq!(t[2], (ShardId(2), cap(9, 8), ShardStatus::Faulted));
    assert_eq!(t[3].1, cap(0, 0));
}
