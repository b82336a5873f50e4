//! A rolling 99th percentile of read latencies, for hedged reads.
//!
//! Latencies are counted by powers of two of a microsecond, in two epochs. Samples go to
//! the current epoch; the percentile is taken over both, so that the window is between one
//! and two epochs long.
use vstd::prelude::*;
use vstd::arithmetic::power2::*;

verus! {

/// How many powers of two are told apart.
pub const BUCKETS: usize = 22;

/// The counts of one epoch.
#[derive(Debug)]
pub struct Epoch {
    pub buckets: [u64; 22],
    pub count: u64,
}

/// The sum of the first counts.
pub open spec fn sum_to(b: Seq<u64>, n: nat) -> nat
    decreases n,
{
    if n == 0 {
        0
    } else {
        sum_to(b, (n - 1) as nat) + b[n - 1] as nat
    }
}

impl Epoch {
    pub open spec fn wf(&self) -> bool {
        self.count == sum_to(self.buckets@, 22)
    }

    /// No samples.
    pub open spec fn is_blank(&self) -> bool {
        self.count == 0 && forall|i: int| 0 <= i < 22 ==> self.buckets@[i] == 0
    }

    fn blank() -> (r: Self)
        ensures
            r.wf(),
            r.is_blank(),
    {
        let r = Epoch { buckets: [0u64;22], count: 0 };
        proof {
            lemma_zero_sum(r.buckets@, 22);
        }
        r
    }
}

proof fn lemma_zero_sum(b: Seq<u64>, n: nat)
    requires
        n <= b.len(),
        forall|i: int| 0 <= i < n ==> b[i] == 0,
    ensures
        sum_to(b, n) == 0,
    decreases n,
{
    if n > 0 {
        lemma_zero_sum(b, (n - 1) as nat);
    }
}

proof fn lemma_bumped_sum(b: Seq<u64>, k: int, v: u64, n: nat)
    requires
        0 <= k < b.len(),
        n <= b.len(),
        v == b[k] + 1,
    ensures
        sum_to(b.update(k, v), n) == sum_to(b, n) + (if k < n {
            1nat
        } else {
            0
        }),
    decreases n,
{
    if n > 0 {
        lemma_bumped_sum(b, k, v, (n - 1) as nat);
    }
}

proof fn lemma_sum_grows(b: Seq<u64>, m: nat, n: nat)
    requires
        m <= n <= b.len(),
    ensures
        sum_to(b, m) <= sum_to(b, n),
        m < n ==> b[m as int] <= sum_to(b, n),
    decreases n - m,
{
    if m < n {
        lemma_sum_grows(b, m + 1, n);
    }
}

/// The bucket of a latency: the whole part of its binary logarithm, capped.
pub open spec fn bucket_of(us: nat) -> nat
    decreases us,
{
    if us < 2 {
        0
    } else if 1 + bucket_of(us / 2) < 21 {
        1 + bucket_of(us / 2)
    } else {
        21
    }
}

pub fn bucket_idx(us: u64) -> (r: usize)
    ensures
        r == bucket_of(us as nat),
        r < 22,
{
    let mut v: u64 = us;
    let mut i: usize = 0;
    while v >= 2 && i < 21
        invariant
            i <= 21,
            bucket_of(us as nat) == (if i + bucket_of(v as nat) < 21 {
                i + bucket_of(v as nat)
            } else {
                21
            }),
        decreases v,
    {
        v = v / 2;
        i = i + 1;
    }
    i
}

/// Every latency but those of the last bucket lies below the upper bound of its bucket.
pub proof fn latencies_lie_below_their_bound(us: nat)
    ensures
        bucket_of(us) < 21 ==> us < pow2(bucket_of(us) + 1),
        us > 0 ==> pow2(bucket_of(us)) <= us,
    decreases us,
{
    lemma2_to64();
    if us >= 2 {
        latencies_lie_below_their_bound(us / 2);
        let b = bucket_of(us / 2);
        lemma_pow2_unfold(b + 1);
        lemma_pow2_unfold(b + 2);
        if bucket_of(us) == 21 && b > 20 {
            lemma_pow2_strictly_increases(21, b + 1);
        }
    }
}

/// A rolling percentile of latencies.
#[derive(Debug)]
pub struct RollingP99 {
    pub window_us: u64,
    pub min_samples: u64,
    pub epoch_start_us: u64,
    /// where samples go
    pub current: Epoch,
    /// the epoch before
    pub previous: Epoch,
}

/// Microseconds since the epoch began.
pub open spec fn age(start: u64, now: u64) -> nat {
    if start < now {
        (now - start) as nat
    } else {
        0
    }
}

/// The samples of both epochs in the first buckets.
pub open spec fn both_to(p: RollingP99, n: nat) -> nat {
    sum_to(p.current.buckets@, n) + sum_to(p.previous.buckets@, n)
}

/// All samples of the window.
pub open spec fn samples(p: RollingP99) -> nat {
    p.current.count as nat + p.previous.count as nat
}

/// 99 of 100 samples, rounded up.
pub open spec fn target(total: nat) -> nat {
    (total * 99 + 99) / 100
}

/// The first bucket, from a given one on, up to which 99 of 100 samples lie.
pub open spec fn tail_bucket(p: RollingP99, from: nat) -> nat
    decreases 21 - from,
{
    if from >= 21 || both_to(p, from + 1) >= target(samples(p)) {
        from
    } else {
        tail_bucket(p, from + 1)
    }
}

impl RollingP99 {
    pub open spec fn wf(&self) -> bool {
        self.current.wf() && self.previous.wf()
    }

    pub fn new(window_us: u64, min_samples: u64) -> (r: Self)
        ensures
            r.wf(),
            r.window_us == window_us,
            r.min_samples == min_samples,
            r.epoch_start_us == 0,
            r.current.is_blank(),
            r.previous.is_blank(),
    {
        RollingP99 {
            window_us,
            min_samples,
            epoch_start_us: 0,
            current: Epoch::blank(),
            previous: Epoch::blank(),
        }
    }

    /// What a new time does to the window: within an epoch nothing; behind it the current
    /// epoch becomes the previous one; after two epochs of silence both are forgotten.
    pub open spec fn rotated(&self, now: u64, r: &Self) -> bool {
        &&& r.window_us == self.window_us
        &&& r.min_samples == self.min_samples
        &&& if age(self.epoch_start_us, now) < self.window_us {
            r.current == self.current && r.previous == self.previous && r.epoch_start_us
                == self.epoch_start_us
        } else {
            &&& r.epoch_start_us == now
            &&& r.current.is_blank()
            &&& if age(self.epoch_start_us, now) >= 2 * self.window_us {
                r.previous.is_blank()
            } else {
                r.previous == self.current
            }
        }
    }

    fn maybe_rotate(&mut self, now: u64)
        requires
            old(self).wf(),
        ensures
            final(self).wf(),
            old(self).rotated(now, final(self)),
    {
        let gone: u64 = if self.epoch_start_us < now {
            now - self.epoch_start_us
        } else {
            0
        };
        if gone < self.window_us {
            return ;
        }
        let mut fresh = Epoch::blank();
        std::mem::swap(&mut fresh, &mut self.current);
        if gone as u128 >= 2 * self.window_us as u128 {
            self.previous = Epoch::blank();
        } else {
            self.previous = fresh;
        }
        self.epoch_start_us = now;
    }

    /// Counts a sample.
    pub fn record_at(&mut self, lat_us: u64, now: u64)
        requires
            old(self).wf(),
            old(self).current.count < u64::MAX,
        ensures
            final(self).wf(),
            exists|mid: Self|
                old(self).rotated(now, &mid) && final(self).previous == mid.previous
                    && final(self).epoch_start_us == mid.epoch_start_us && final(self).window_us
                    == mid.window_us && final(self).min_samples == mid.min_samples
                    && final(self).current.count == mid.current.count + 1
                    && final(self).current.buckets@ == (#[trigger] mid.current.buckets@).update(
                    bucket_of(lat_us as nat) as int,
                    (mid.current.buckets@[bucket_of(lat_us as nat) as int] + 1) as u64,
                ),
    {
        self.maybe_rotate(now);
        let ghost mid = *self;
        let i: usize = bucket_idx(lat_us);
        let ghost b = self.current.buckets@;
        proof {
            lemma_sum_grows(b, i as nat, 22);
            if age(old(self).epoch_start_us, now) >= old(self).window_us {
                lemma_zero_sum(b, 22);
            }
        }
        let more: u64 = self.current.buckets[i] + 1;
        self.current.buckets[i] = more;
        self.current.count = self.current.count + 1;
        proof {
            lemma_bumped_sum(b, i as int, more, 22);
            assert(self.current.buckets@ =~= b.update(i as int, more));
            assert(old(self).rotated(now, &mid));
            assert(mid.current.buckets@ == b);
        }
    }

    /// The upper bound of the bucket that holds the 99th percentile, in microseconds: reads
    /// are not hedged earlier than it. None before the window holds enough samples.
    pub fn p99_at(&mut self, now: u64) -> (r: Option<u64>)
        requires
            old(self).wf(),
        ensures
            final(self).wf(),
            old(self).rotated(now, final(self)),
            samples(*final(self)) < final(self).min_samples ==> r is None,
            samples(*final(self)) >= final(self).min_samples ==> r is Some && r->0 == pow2(
                tail_bucket(*final(self), 0) + 1,
            ),
    {
        self.maybe_rotate(now);
        let total: u128 = self.current.count as u128 + self.previous.count as u128;
        if total < self.min_samples as u128 {
            return None;
        }
        let want: u128 = (total * 99 + 99) / 100;
        let mut cum: u128 = 0;
        let mut i: usize = 0;
        let mut bound: u64 = 2;
        let ghost p = *self;
        proof {
            lemma2_to64();
            assert(want == target(samples(p)));
            assert(want <= total);
        }
        while i < 22
            invariant
                i <= 22,
                *self == p,
                p.wf(),
                total == samples(p),
                want == target(samples(p)),
                want <= total,
                old(self).rotated(now, self),
                samples(p) >= p.min_samples,
                cum == both_to(p, i as nat),
                i > 0 ==> cum < want,
                i < 22 ==> tail_bucket(p, 0) == tail_bucket(p, i as nat),
                i < 22 ==> bound == pow2((i + 1) as nat) && bound <= 0x40_0000,
                pow2(22) == 0x40_0000,
            decreases 22 - i,
        {
            cum = cum + self.current.buckets[i] as u128 + self.previous.buckets[i] as u128;
            if cum >= want {
                assert(both_to(p, (i + 1) as nat) == cum);
                return Some(bound);
            }
            proof {
                if i < 21 {
                    lemma_pow2_unfold((i + 2) as nat);
                    if i < 20 {
                        lemma_pow2_strictly_increases((i + 2) as nat, 22);
                    }
                }
            }
            if i < 21 {
                bound = 2 * bound;
            }
            i = i + 1;
        }
        assert(both_to(p, 22) == total);
        None
    }
}

/// 99 of 100 samples lie at or below the bucket of the percentile, and fewer below it.
pub proof fn percentile_covers(p: RollingP99)
    requires
        p.wf(),
    ensures
        tail_bucket(p, 0) < 22,
        both_to(p, tail_bucket(p, 0) + 1) * 100 >= samples(p) * 99,
        tail_bucket(p, 0) > 0 ==> both_to(p, tail_bucket(p, 0)) * 100 < samples(p) * 99,
{
    lemma_tail(p, 0);
}

proof fn lemma_tail(p: RollingP99, from: nat)
    requires
        p.wf(),
        from <= 21,
        from > 0 ==> both_to(p, from) < target(samples(p)),
    ensures
        from <= tail_bucket(p, from) < 22,
        both_to(p, tail_bucket(p, from) + 1) >= target(samples(p)),
        tail_bucket(p, from) > 0 ==> both_to(p, tail_bucket(p, from)) < target(samples(p)),
    decreases 21 - from,
{
    if from >= 21 {
        assert(both_to(p, 22) == samples(p));
    } else if both_to(p, from + 1) < target(samples(p)) {
        lemma_tail(p, from + 1);
    }
}

/// After two epochs without a sample nothing of the window is left.
pub proof fn silence_forgets(p: RollingP99, r: RollingP99, now: u64)
    requires
        p.wf(),
        p.rotated(now, &r),
        p.window_us > 0,
        age(p.epoch_start_us, now) >= 2 * p.window_us,
    ensures
        samples(r) == 0,
{
}

/// A sample is remembered through one change of epochs and gone after the second.
pub proof fn second_rotation_forgets(p: RollingP99, q: RollingP99, r: RollingP99, t1: u64, t2: u64)
    requires
        p.wf(),
        p.rotated(t1, &q),
        q.rotated(t2, &r),
        p.window_us <= age(p.epoch_start_us, t1) < 2 * p.window_us,
        age(q.epoch_start_us, t2) >= q.window_us,
    ensures
        q.previous == p.current,
        r.current.is_blank(),
        r.previous == q.current || r.previous.is_blank(),
{
}

/// How many of the samples have a property.
pub open spec fn how_many(s: Seq<nat>, f: spec_fn(nat) -> bool) -> nat
    decreases s.len(),
{
    if s.len() == 0 {
        0
    } else {
        how_many(s.drop_last(), f) + if f(s.last()) {
            1nat
        } else {
            0nat
        }
    }
}

/// Whether an epoch counts exactly these samples.
pub open spec fn counts(e: Epoch, s: Seq<nat>) -> bool {
    &&& e.count == s.len()
    &&& forall|b: int|
        0 <= b < 22 ==> #[trigger] e.buckets@[b] == how_many(s, |us: nat| bucket_of(us) == b)
}

/// Whether `us` is the `n`th smallest of the samples.
pub open spec fn is_nth(s: Seq<nat>, n: nat, us: nat) -> bool {
    &&& s.contains(us)
    &&& how_many(s, |x: nat| x < us) < n
    &&& how_many(s, |x: nat| x <= us) >= n
}

proof fn lemma_fewer(s: Seq<nat>, f: spec_fn(nat) -> bool, g: spec_fn(nat) -> bool)
    requires
        forall|x: nat| #[trigger] f(x) ==> g(x),
    ensures
        how_many(s, f) <= how_many(s, g),
    decreases s.len(),
{
    if s.len() > 0 {
        lemma_fewer(s.drop_last(), f, g);
        assert(f(s.last()) ==> g(s.last()));
    }
}

proof fn lemma_joint(a: Seq<nat>, b: Seq<nat>, f: spec_fn(nat) -> bool)
    ensures
        how_many(a + b, f) == how_many(a, f) + how_many(b, f),
    decreases b.len(),
{
    if b.len() == 0 {
        assert(a + b =~= a);
    } else {
        lemma_joint(a, b.drop_last(), f);
        assert((a + b).drop_last() =~= a + b.drop_last());
    }
}

proof fn lemma_split(s: Seq<nat>, n: nat)
    ensures
        how_many(s, |us: nat| bucket_of(us) < n + 1) == how_many(s, |us: nat| bucket_of(us) < n)
            + how_many(s, |us: nat| bucket_of(us) == n as int),
        how_many(s, |us: nat| bucket_of(us) < 0) == 0,
    decreases s.len(),
{
    if s.len() > 0 {
        lemma_split(s.drop_last(), n);
    }
}

/// The first counts of an epoch are the samples of the first buckets.
proof fn lemma_counted(e: Epoch, s: Seq<nat>, n: nat)
    requires
        counts(e, s),
        n <= 22,
    ensures
        sum_to(e.buckets@, n) == how_many(s, |us: nat| bucket_of(us) < n),
    decreases n,
{
    if n == 0 {
        lemma_split(s, 0);
        lemma_fewer(s, |us: nat| bucket_of(us) < n, |us: nat| bucket_of(us) < 0);
    } else {
        let m = (n - 1) as nat;
        lemma_counted(e, s, m);
        lemma_split(s, m);
        assert(e.buckets@[m as int] == how_many(s, |us: nat| bucket_of(us) == m as int));
        lemma_fewer(s, |us: nat| bucket_of(us) < n, |us: nat| bucket_of(us) < m + 1);
        lemma_fewer(s, |us: nat| bucket_of(us) < m + 1, |us: nat| bucket_of(us) < n);
    }
}

proof fn lemma_bucket_rises(a: nat, b: nat)
    requires
        a <= b,
    ensures
        bucket_of(a) <= bucket_of(b),
    decreases b,
{
    if a >= 2 {
        lemma_bucket_rises(a / 2, b / 2);
    }
}

/// A blank epoch counts no samples.
pub proof fn blank_epochs_count_nothing(e: Epoch)
    requires
        e.is_blank(),
    ensures
        counts(e, Seq::empty()),
{
}

/// One more sample is counted in its bucket.
pub proof fn samples_are_counted(e: Epoch, more: Epoch, s: Seq<nat>, us: nat)
    requires
        counts(e, s),
        e.count < u64::MAX,
        more.count == e.count + 1,
        more.buckets@ == e.buckets@.update(
            bucket_of(us) as int,
            (e.buckets@[bucket_of(us) as int] + 1) as u64,
        ),
    ensures
        counts(more, s.push(us)),
{
    let w = s.push(us);
    assert(w.drop_last() =~= s);
    lemma_bucket_small(us);
    assert forall|b: int| 0 <= b < 22 implies #[trigger] more.buckets@[b] == how_many(
        w,
        |x: nat| bucket_of(x) == b,
    ) by {
        assert(e.buckets@[b] == how_many(s, |x: nat| bucket_of(x) == b));
        lemma_at_most_all(s, |x: nat| bucket_of(x) == b);
    }
}

proof fn lemma_bucket_small(us: nat)
    ensures
        bucket_of(us) < 22,
    decreases us,
{
    if us >= 2 {
        lemma_bucket_small(us / 2);
    }
}

proof fn lemma_at_most_all(s: Seq<nat>, f: spec_fn(nat) -> bool)
    ensures
        how_many(s, f) <= s.len(),
    decreases s.len(),
{
    if s.len() > 0 {
        lemma_at_most_all(s.drop_last(), f);
    }
}

/// The percentile over the samples themselves: what is returned lies above the sample that
/// 99 of 100 do not exceed, and is at most twice that sample.
pub proof fn percentile_bounds_the_sample(
    p: RollingP99,
    current: Seq<nat>,
    previous: Seq<nat>,
    us: nat,
)
    requires
        p.wf(),
        counts(p.current, current),
        counts(p.previous, previous),
        is_nth(current + previous, target(samples(p)), us),
        0 < us < pow2(22),
    ensures
        us < pow2(tail_bucket(p, 0) + 1) <= 2 * us,
{
    let s = current + previous;
    let t = tail_bucket(p, 0);
    let b = bucket_of(us);
    lemma_bucket_small(us);
    lemma_tail(p, 0);
    lemma_window(p, current, previous, b);
    lemma_window(p, current, previous, b + 1);
    assert(both_to(p, b) <= how_many(s, |x: nat| x < us)) by {
        assert forall|x: nat| bucket_of(x) < b implies x < us by {
            if x >= us {
                lemma_bucket_rises(us, x);
            }
        }
        lemma_fewer(s, |x: nat| bucket_of(x) < b, |x: nat| x < us);
    }
    assert(both_to(p, b + 1) >= how_many(s, |x: nat| x <= us)) by {
        assert forall|x: nat| x <= us implies bucket_of(x) < b + 1 by {
            lemma_bucket_rises(x, us);
        }
        lemma_fewer(s, |x: nat| x <= us, |x: nat| bucket_of(x) < b + 1);
    }
    if t < b {
        lemma_sum_grows(p.current.buckets@, t + 1, b);
        lemma_sum_grows(p.previous.buckets@, t + 1, b);
    } else if b < t {
        lemma_sum_grows(p.current.buckets@, b + 1, t);
        lemma_sum_grows(p.previous.buckets@, b + 1, t);
    }
    latencies_lie_below_their_bound(us);
    lemma_pow2_unfold(t + 1);
}

/// The counts of both epochs up to a bucket are the samples of the window there.
proof fn lemma_window(p: RollingP99, current: Seq<nat>, previous: Seq<nat>, n: nat)
    requires
        counts(p.current, current),
        counts(p.previous, previous),
        n <= 22,
    ensures
        both_to(p, n) == how_many(current + previous, |us: nat| bucket_of(us) < n),
{
    lemma_counted(p.current, current, n);
    lemma_counted(p.previous, previous, n);
    lemma_joint(current, previous, |us: nat| bucket_of(us) < n);
}

/// Samples count for the rest of their epoch and all of the next one, and no longer.
pub proof fn samples_count_for_two_epochs(p: RollingP99, now: u64, r: RollingP99)
    requires
        p.rotated(now, &r),
        p.epoch_start_us <= now,
    ensures
        r.window_us == p.window_us && r.min_samples == p.min_samples,
        now - p.epoch_start_us < p.window_us ==> r.current == p.current && r.previous == p.previous
            && r.epoch_start_us == p.epoch_start_us,
        p.window_us <= now - p.epoch_start_us < 2 * p.window_us ==> r.previous == p.current
            && r.current.count == 0 && r.epoch_start_us == now,
        now - p.epoch_start_us >= 2 * p.window_us && p.window_us > 0 ==> r.previous.count == 0
            && r.current.count == 0 && r.epoch_start_us == now,
{
}

/// The bucket of a latency is told by the powers of two round it; from the 21st on there is
/// one bucket.
pub proof fn latencies_have_their_bucket(us: u64, r: usize, b: nat)
    requires
        call_ensures(bucket_idx, (us,), r),
        b < 21,
    ensures
        pow2(b) <= us < pow2(b + 1) ==> r == b,
        us == 0 ==> r == 0,
        us >= pow2(21) ==> r == 21,
{
    latencies_lie_below_their_bound(us as nat);
    lemma2_to64();
    if pow2(b) <= us < pow2(b + 1) {
        if r < b {
            if r + 1 < b {
                lemma_pow2_strictly_increases((r + 1) as nat, b);
            }
        } else if r > b {
            if r > b + 1 {
                lemma_pow2_strictly_increases(b + 1, r as nat);
            }
        }
    }
    if us >= pow2(21) && r < 21 {
        if r + 1 < 21 {
            lemma_pow2_strictly_increases((r + 1) as nat, 21);
        }
    }
}

} // verus!
