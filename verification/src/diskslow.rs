//! Disks that are alive but dying: average latencies compared with the fleet.
//!
//! Disks of one make have the same latency, so that the median of their averages is the
//! health of the generation. A disk is slow when it is far above that median and above an
//! absolute floor. Hysteresis is left to the health of the disk.
use vstd::prelude::*;

verus! {

/// When a disk counts as slow. How much worse than the median it must be is applied by
/// the caller, who hands in the multiple of the median.
#[derive(Clone, Copy, Debug, PartialEq, Eq, Structural)]
pub struct DiskSlowConfig {
    /// no disk below it is slow, in milliseconds
    pub abs_floor_ms: u64,
    /// samples before a disk takes part
    pub min_samples: u64,
}

impl Default for DiskSlowConfig {
    fn default() -> (r: Self)
        ensures
            r.abs_floor_ms == 250,
            r.min_samples == 32,
    {
        DiskSlowConfig { abs_floor_ms: 250, min_samples: 32 }
    }
}

/// The moving averages of the latencies of a fleet, one eighth of weight on the new sample.
#[derive(Debug)]
pub struct DiskSlowMonitor {
    pub ewma_us: Vec<u64>,
    pub counts: Vec<u64>,
}

/// The average after a sample.
pub open spec fn averaged(old: u64, us: u64, n: u64) -> u64 {
    if n == 0 {
        us
    } else {
        ((old * 7 + us) / 8) as u64
    }
}

/// The averages of the disks with enough samples, in order.
pub open spec fn taking_part(ewma: Seq<u64>, counts: Seq<u64>, min_samples: u64) -> Seq<u64>
    decreases ewma.len(),
{
    if ewma.len() == 0 {
        Seq::empty()
    } else {
        let rest = taking_part(ewma.drop_last(), counts.drop_last(), min_samples);
        if counts.last() >= min_samples {
            rest.push(ewma.last())
        } else {
            rest
        }
    }
}

pub open spec fn at_most() -> spec_fn(u64, u64) -> bool {
    |a: u64, b: u64| a <= b
}

/// The middle of the values in ascending order, the upper one of two; zero of none.
pub open spec fn median(v: Seq<u64>) -> u64 {
    if v.len() == 0 {
        0
    } else {
        v.sort_by(at_most())[v.len() as int / 2]
    }
}

/// The average above which a disk is slow.
pub open spec fn threshold(cfg: DiskSlowConfig, rel_us: u64) -> int {
    if cfg.abs_floor_ms * 1000 > rel_us {
        cfg.abs_floor_ms * 1000
    } else {
        rel_us as int
    }
}

impl DiskSlowMonitor {
    pub open spec fn wf(&self) -> bool {
        self.ewma_us@.len() == self.counts@.len()
    }

    pub fn new(n: usize) -> (r: Self)
        ensures
            r.wf(),
            r.ewma_us@ == Seq::new(n as nat, |i: int| 0u64),
            r.counts@ == Seq::new(n as nat, |i: int| 0u64),
    {
        let mut e: Vec<u64> = Vec::new();
        let mut c: Vec<u64> = Vec::new();
        let mut i: usize = 0;
        while i < n
            invariant
                i <= n,
                e@ =~= Seq::new(i as nat, |j: int| 0u64),
                c@ =~= Seq::new(i as nat, |j: int| 0u64),
            decreases n - i,
        {
            e.push(0);
            c.push(0);
            i = i + 1;
        }
        DiskSlowMonitor { ewma_us: e, counts: c }
    }

    /// Counts a latency of a shard; one of an unknown shard is ignored.
    pub fn record(&mut self, shard: usize, lat_us: u64)
        requires
            old(self).wf(),
        ensures
            final(self).wf(),
            shard < old(self).ewma_us@.len() ==> final(self).ewma_us@ == old(self).ewma_us@.update(
                shard as int,
                averaged(
                    old(self).ewma_us@[shard as int],
                    lat_us,
                    old(self).counts@[shard as int],
                ),
            ) && final(self).counts@ == old(self).counts@.update(
                shard as int,
                if old(self).counts@[shard as int] == u64::MAX {
                    0
                } else {
                    (old(self).counts@[shard as int] + 1) as u64
                },
            ),
            shard >= old(self).ewma_us@.len() ==> final(self).ewma_us@ == old(self).ewma_us@
                && final(self).counts@ == old(self).counts@,
    {
        if shard >= self.ewma_us.len() {
            return ;
        }
        let n: u64 = self.counts[shard];
        let old_us: u64 = self.ewma_us[shard];
        self.counts.set(
            shard,
            if n == u64::MAX {
                0
            } else {
                n + 1
            },
        );
        let next: u64 = if n == 0 {
            lat_us
        } else {
            ((old_us as u128 * 7 + lat_us as u128) / 8) as u64
        };
        self.ewma_us.set(shard, next);
    }

    /// The average latency of a shard in milliseconds.
    pub fn ewma_ms(&self, shard: usize) -> (r: u64)
        ensures
            r == (if shard < self.ewma_us@.len() {
                self.ewma_us@[shard as int] / 1000
            } else {
                0
            }),
    {
        if shard < self.ewma_us.len() {
            self.ewma_us[shard] / 1000
        } else {
            0
        }
    }

    /// How many latencies of a shard were counted.
    pub fn samples(&self, shard: usize) -> (r: u64)
        ensures
            r == (if shard < self.counts@.len() {
                self.counts@[shard as int]
            } else {
                0
            }),
    {
        if shard < self.counts.len() {
            self.counts[shard]
        } else {
            0
        }
    }

    /// The median average of the disks that take part.
    pub fn median_us(&self, cfg: &DiskSlowConfig) -> (r: u64)
        requires
            self.wf(),
        ensures
            r == median(taking_part(self.ewma_us@, self.counts@, cfg.min_samples)),
    {
        let mut sorted: Vec<u64> = Vec::new();
        let mut i: usize = 0;
        let ghost mut part: Seq<u64> = Seq::empty();
        proof {
            assert(self.ewma_us@.take(0) =~= Seq::<u64>::empty());
        }
        while i < self.ewma_us.len()
            invariant
                self.wf(),
                i <= self.ewma_us@.len(),
                part == taking_part(
                    self.ewma_us@.take(i as int),
                    self.counts@.take(i as int),
                    cfg.min_samples,
                ),
                ascending(sorted@),
                sorted@.to_multiset() == part.to_multiset(),
            decreases self.ewma_us@.len() - i,
        {
            proof {
                assert(self.ewma_us@.take(i + 1).drop_last() =~= self.ewma_us@.take(i as int));
                assert(self.counts@.take(i + 1).drop_last() =~= self.counts@.take(i as int));
            }
            if self.counts[i] >= cfg.min_samples {
                let x: u64 = self.ewma_us[i];
                insert_sorted(&mut sorted, x);
                proof {
                    part.to_multiset_ensures();
                    part = part.push(x);
                }
            }
            i = i + 1;
        }
        proof {
            assert(self.ewma_us@.take(self.ewma_us@.len() as int) =~= self.ewma_us@);
            assert(self.counts@.take(self.counts@.len() as int) =~= self.counts@);
            lemma_is_sort(sorted@, part);
        }
        if sorted.len() == 0 {
            0
        } else {
            sorted[sorted.len() / 2]
        }
    }

    /// Which disks are slow: those with enough samples and an average above the floor and
    /// above the given multiple of the median.
    pub fn verdicts(&self, cfg: &DiskSlowConfig, rel_us: u64) -> (r: Vec<bool>)
        requires
            self.wf(),
        ensures
            r@ == Seq::new(
                self.ewma_us@.len(),
                |i: int|
                    self.counts@[i] >= cfg.min_samples && self.ewma_us@[i] > threshold(
                        *cfg,
                        rel_us,
                    ),
            ),
    {
        let floor: u128 = cfg.abs_floor_ms as u128 * 1000;
        let limit: u128 = if floor > rel_us as u128 {
            floor
        } else {
            rel_us as u128
        };
        let mut out: Vec<bool> = Vec::new();
        let mut i: usize = 0;
        while i < self.ewma_us.len()
            invariant
                self.wf(),
                i <= self.ewma_us@.len(),
                limit == threshold(*cfg, rel_us),
                out@ =~= Seq::new(
                    i as nat,
                    |j: int|
                        self.counts@[j] >= cfg.min_samples && self.ewma_us@[j] > threshold(
                            *cfg,
                            rel_us,
                        ),
                ),
            decreases self.ewma_us@.len() - i,
        {
            out.push(self.counts[i] >= cfg.min_samples && self.ewma_us[i] as u128 > limit);
            i = i + 1;
        }
        out
    }
}

spec fn ascending(v: Seq<u64>) -> bool {
    forall|i: int, j: int| 0 <= i <= j < v.len() ==> v[i] <= v[j]
}

fn insert_sorted(v: &mut Vec<u64>, x: u64)
    requires
        ascending(old(v)@),
    ensures
        ascending(final(v)@),
        final(v)@.to_multiset() == old(v)@.to_multiset().insert(x),
{
    let mut n: usize = v.len();
    while n > 0 && v[n - 1] > x
        invariant
            n <= v@.len(),
            v@ == old(v)@,
            ascending(v@),
            forall|j: int| n <= j < v@.len() ==> v@[j] > x,
        decreases n,
    {
        n = n - 1;
    }
    let ghost o = v@;
    v.insert(n, x);
    proof {
        broadcast use vstd::seq_lib::group_to_multiset_ensures;

        assert(v@ == o.insert(n as int, x));
        assert forall|i: int, j: int| 0 <= i <= j < v@.len() implies v@[i] <= v@[j] by {
            let a = if i < n {
                i
            } else {
                i - 1
            };
            let b = if j < n {
                j
            } else {
                j - 1
            };
            if i != n && j != n {
                assert(v@[i] == o[a] && v@[j] == o[b]);
            } else if i == n && j > n {
                assert(v@[j] == o[b]);
            } else if j == n && i < n {
                assert(v@[i] == o[a]);
                assert(o[a] <= o[n - 1]);
            }
        }
    }
}

proof fn lemma_is_sort(sorted: Seq<u64>, v: Seq<u64>)
    requires
        ascending(sorted),
        sorted.to_multiset() == v.to_multiset(),
    ensures
        v.sort_by(at_most()) == sorted,
        sorted.len() == v.len(),
{
    let leq = at_most();
    assert(vstd::relations::total_ordering(leq));
    v.lemma_sort_by_ensures(leq);
    assert(vstd::relations::sorted_by(sorted, leq));
    vstd::seq_lib::lemma_sorted_unique(v.sort_by(leq), sorted, leq);
    sorted.to_multiset_ensures();
    v.to_multiset_ensures();
}

/// A disk that is no worse than the median is not slow, whatever factor of at least one
/// the multiple was taken with.
pub proof fn median_disks_are_not_slow(
    ewma: Seq<u64>,
    counts: Seq<u64>,
    cfg: DiskSlowConfig,
    rel_us: u64,
    i: int,
)
    requires
        0 <= i < ewma.len(),
        rel_us >= median(taking_part(ewma, counts, cfg.min_samples)),
        ewma[i] <= median(taking_part(ewma, counts, cfg.min_samples)),
    ensures
        !(ewma[i] > threshold(cfg, rel_us)),
{
}

/// An average moves by no more than an eighth of the way to the sample.
pub proof fn spikes_are_smoothed(old: u64, us: u64, n: u64)
    requires
        n > 0,
    ensures
        us >= old ==> old <= averaged(old, us, n) && averaged(old, us, n) - old <= (us - old) / 8,
        us <= old ==> us <= averaged(old, us, n) <= old && old - averaged(old, us, n) <= (old - us
            + 7) / 8,
{
}

/// A disk is slow exactly when it has enough samples and its average is above the floor and
/// above the multiple of the median, whatever the others are.
pub proof fn slow_disks_are_told(
    m: &DiskSlowMonitor,
    cfg: &DiskSlowConfig,
    rel_us: u64,
    r: Vec<bool>,
    i: int,
)
    requires
        m.wf(),
        call_ensures(DiskSlowMonitor::verdicts, (m, cfg, rel_us), r),
        0 <= i < m.ewma_us@.len(),
    ensures
        r@.len() == m.ewma_us@.len(),
        r@[i] <==> m.counts@[i] >= cfg.min_samples && m.ewma_us@[i] > cfg.abs_floor_ms * 1000
            && m.ewma_us@[i] > rel_us,
{
}

/// The average of a disk takes part in the median exactly when it has enough samples.
pub proof fn sampled_disks_take_part(
    ewma: Seq<u64>,
    counts: Seq<u64>,
    min_samples: u64,
    i: int,
)
    requires
        ewma.len() == counts.len(),
        0 <= i < ewma.len(),
    ensures
        counts[i] >= min_samples ==> taking_part(ewma, counts, min_samples).contains(ewma[i]),
        (forall|j: int| 0 <= j < counts.len() ==> counts[j] >= min_samples) ==> taking_part(
            ewma,
            counts,
            min_samples,
        ) == ewma,
        (forall|j: int| 0 <= j < counts.len() ==> counts[j] < min_samples) ==> taking_part(
            ewma,
            counts,
            min_samples,
        ).len() == 0,
    decreases ewma.len(),
{
    let p = ewma.drop_last();
    let c = counts.drop_last();
    let rest = taking_part(p, c, min_samples);
    let all = taking_part(ewma, counts, min_samples);
    if i < p.len() {
        sampled_disks_take_part(p, c, min_samples, i);
        if rest.contains(ewma[i]) {
            let j = choose|j: int| 0 <= j < rest.len() && rest[j] == ewma[i];
            assert(all[j] == ewma[i]);
        }
    } else {
        if counts[i] >= min_samples {
            assert(all[rest.len() as int] == ewma[i]);
        }
        if p.len() > 0 {
            sampled_disks_take_part(p, c, min_samples, 0);
        }
    }
    if forall|j: int| 0 <= j < counts.len() ==> counts[j] >= min_samples {
        assert forall|j: int| 0 <= j < c.len() implies c[j] >= min_samples by {
            assert(c[j] == counts[j]);
        }
        assert(counts[counts.len() - 1] >= min_samples);
        assert(all =~= ewma);
    }
    if forall|j: int| 0 <= j < counts.len() ==> counts[j] < min_samples {
        assert forall|j: int| 0 <= j < c.len() implies c[j] < min_samples by {
            assert(c[j] == counts[j]);
        }
        assert(counts[counts.len() - 1] < min_samples);
    }
}

/// The first sample is the average; later ones weigh one eighth.
pub proof fn averages_weigh_the_past(old: u64, us: u64, n: u64)
    ensures
        averaged(old, us, 0) == us,
        n > 0 ==> averaged(old, us, n) == (7 * old + us) / 8,
        averaged(old, old, n) == old,
{
}

} // verus!
