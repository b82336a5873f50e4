//! The pool: many shards as one block store.
//!
//! Shards are reached by the application; this module decides which shards are
//! asked, in which order, and what the answers amount to.
use vstd::prelude::*;
use vstd::string::*;
use crate::domain::{BlockKey, Capacity, DomainError, DomainResult, ShardId, ShardStatus};
use crate::domain;
use crate::erasure::{ec_encode, EcConfig};
use crate::erasure;
use crate::heal::{HealPriority, HealQueue};
use crate::heal;
use crate::listing;
use crate::verified::{is_ob_key, ob_key, ObConfig};
use crate::verified;

verus! {

/// Settings of the pool.  Times are in milliseconds.
#[derive(Clone, Copy, Debug)]
pub struct PoolConfig {
    /// copies of each object
    pub replicas: usize,
    /// writes that have to succeed
    pub write_quorum: usize,
    pub free_space_cache_ttl: u64,
    /// ask a second copy when the first does not answer in time
    pub speculative_retry_after: Option<u64>,
    pub heal_parallelism: usize,
    /// repairs that may touch one shard at a time
    pub heal_max_per_shard: usize,
    pub ec: Option<EcConfig>,
    pub outboard: Option<ObConfig>,
    /// take the time from recent reads
    pub adaptive_hedge: bool,
}

impl Default for PoolConfig {
    fn default() -> (r: Self)
        ensures
            r.replicas == 2,
            r.write_quorum == 2,
            r.free_space_cache_ttl == 5000,
            r.speculative_retry_after == Some(100u64),
            r.heal_parallelism == 4,
            r.heal_max_per_shard == 2,
            r.ec is None,
            r.outboard is None,
            r.adaptive_hedge,
    {
        PoolConfig {
            replicas: 2,
            write_quorum: 2,
            free_space_cache_ttl: 5000,
            speculative_retry_after: Some(100),
            heal_parallelism: 4,
            heal_max_per_shard: 2,
            ec: None,
            outboard: None,
            adaptive_hedge: true,
        }
    }
}

/// Whether a pool can be made: at least one copy and one write, no more writes
/// than copies, no more copies than shards.
pub open spec fn pool_possible(replicas: usize, write_quorum: usize, shards: usize) -> bool {
    1 <= write_quorum <= replicas <= shards
}

pub fn pool_config_ok(replicas: usize, write_quorum: usize, shards: usize) -> (r: bool)
    ensures
        r == pool_possible(replicas, write_quorum, shards),
{
    write_quorum >= 1 && write_quorum <= replicas && replicas <= shards
}

/// What the pool knows of its shards.
#[derive(Debug)]
pub struct Pool {
    pub statuses: Vec<ShardStatus>,
    pub cap_overrides: Vec<Option<Capacity>>,
    pub slow_flags: Vec<bool>,
    pub mrf: HealQueue,
    /// the cached topology may be used
    pub topo_valid: bool,
}

impl Pool {
    pub open spec fn wf(&self) -> bool {
        &&& self.statuses@.len() == self.cap_overrides@.len() == self.slow_flags@.len()
        &&& heal::no_doubles(self.mrf@)
    }

    /// A pool of `shards` healthy shards.
    pub fn new(shards: usize, cfg: &PoolConfig) -> (r: Self)
        requires
            pool_possible(cfg.replicas, cfg.write_quorum, shards),
        ensures
            r.wf(),
            r.statuses@ == Seq::new(shards as nat, |i: int| ShardStatus::Online),
            r.cap_overrides@ == Seq::new(shards as nat, |i: int| None::<Capacity>),
            r.slow_flags@ == Seq::new(shards as nat, |i: int| false),
            r.mrf@.len() == 0,
            !r.topo_valid,
    {
        let mut statuses: Vec<ShardStatus> = Vec::new();
        let mut cap_overrides: Vec<Option<Capacity>> = Vec::new();
        let mut slow_flags: Vec<bool> = Vec::new();
        let mut i: usize = 0;
        while i < shards
            invariant
                i <= shards,
                statuses@ =~= Seq::new(i as nat, |j: int| ShardStatus::Online),
                cap_overrides@ =~= Seq::new(i as nat, |j: int| None::<Capacity>),
                slow_flags@ =~= Seq::new(i as nat, |j: int| false),
            decreases shards - i,
        {
            statuses.push(ShardStatus::Online);
            cap_overrides.push(None);
            slow_flags.push(false);
            i = i + 1;
        }
        Pool { statuses, cap_overrides, slow_flags, mrf: HealQueue::new(), topo_valid: false }
    }

    pub fn shard_count(&self) -> (r: usize)
        ensures
            r == self.statuses@.len(),
    {
        self.statuses.len()
    }

    pub fn shard_status(&self, idx: usize) -> (r: Option<ShardStatus>)
        ensures
            r == (if idx < self.statuses@.len() {
                Some(self.statuses@[idx as int])
            } else {
                None
            }),
    {
        if idx < self.statuses.len() {
            Some(self.statuses[idx])
        } else {
            None
        }
    }

    pub fn shard_slow(&self, idx: usize) -> (r: bool)
        ensures
            r == (idx < self.slow_flags@.len() && self.slow_flags@[idx as int]),
    {
        idx < self.slow_flags.len() && self.slow_flags[idx]
    }

    /// Changes a shard's status; a change invalidates the cached topology.
    pub fn set_shard_status(&mut self, idx: usize, st: ShardStatus)
        requires
            old(self).wf(),
        ensures
            final(self).wf(),
            final(self).cap_overrides@ == old(self).cap_overrides@,
            final(self).slow_flags@ == old(self).slow_flags@,
            final(self).mrf@ == old(self).mrf@,
            idx < old(self).statuses@.len() ==> {
                &&& final(self).statuses@ == old(self).statuses@.update(idx as int, st)
                &&& final(self).topo_valid == (old(self).topo_valid && old(self).statuses@[idx as int]
                    == st)
            },
            idx >= old(self).statuses@.len() ==> {
                &&& final(self).statuses@ == old(self).statuses@
                &&& final(self).topo_valid == old(self).topo_valid
            },
    {
        if idx < self.statuses.len() && self.statuses[idx] != st {
            self.statuses[idx] = st;
            self.topo_valid = false;
        } else {
            assert(idx < self.statuses@.len() ==> self.statuses@.update(idx as int, st)
                =~= self.statuses@);
        }
    }

    /// Marks a shard as slow or not; a change invalidates the cached topology.
    pub fn set_shard_slow(&mut self, idx: usize, slow: bool)
        requires
            old(self).wf(),
        ensures
            final(self).wf(),
            final(self).cap_overrides@ == old(self).cap_overrides@,
            final(self).statuses@ == old(self).statuses@,
            final(self).mrf@ == old(self).mrf@,
            idx < old(self).slow_flags@.len() ==> {
                &&& final(self).slow_flags@ == old(self).slow_flags@.update(idx as int, slow)
                &&& final(self).topo_valid == (old(self).topo_valid
                    && old(self).slow_flags@[idx as int] == slow)
            },
            idx >= old(self).slow_flags@.len() ==> {
                &&& final(self).slow_flags@ == old(self).slow_flags@
                &&& final(self).topo_valid == old(self).topo_valid
            },
    {
        if idx < self.slow_flags.len() && self.slow_flags[idx] != slow {
            self.slow_flags[idx] = slow;
            self.topo_valid = false;
        } else {
            assert(idx < self.slow_flags@.len() ==> self.slow_flags@.update(idx as int, slow)
                =~= self.slow_flags@);
        }
    }

    /// Overrides a shard's capacity.
    pub fn set_shard_capacity(&mut self, idx: usize, cap: Capacity)
        requires
            old(self).wf(),
        ensures
            final(self).wf(),
            final(self).statuses@ == old(self).statuses@,
            final(self).slow_flags@ == old(self).slow_flags@,
            final(self).mrf@ == old(self).mrf@,
            final(self).topo_valid == old(self).topo_valid,
            final(self).cap_overrides@ == (if idx < old(self).cap_overrides@.len() {
                old(self).cap_overrides@.update(idx as int, Some(cap))
            } else {
                old(self).cap_overrides@
            }),
    {
        if idx < self.cap_overrides.len() {
            self.cap_overrides[idx] = Some(cap);
        }
    }

    /// How many keys wait for repair.
    pub fn mrf_len(&self) -> (r: usize)
        ensures
            r == self.mrf@.len(),
    {
        self.mrf.len()
    }

    /// Queues a key for repair.
    pub fn enqueue_heal(&mut self, key: BlockKey, prio: HealPriority)
        requires
            old(self).wf(),
        ensures
            final(self).wf(),
            final(self).statuses@ == old(self).statuses@,
            final(self).cap_overrides@ == old(self).cap_overrides@,
            final(self).slow_flags@ == old(self).slow_flags@,
            final(self).topo_valid == old(self).topo_valid,
            final(self).mrf@ == heal::pushed(old(self).mrf@, key@, prio),
    {
        self.mrf.push(key, prio);
    }
}

/// The time after which a second copy is asked: that of recent reads within
/// bounds when there is one and it is wanted, else the fixed one.
pub open spec fn hedge_after(adaptive: bool, p99_us: Option<u64>, fixed_ms: Option<u64>) -> Option<
    u64,
> {
    match p99_us {
        Some(p) => if adaptive {
            Some(
                if p < 10_000 {
                    10_000
                } else if p > 2_000_000 {
                    2_000_000
                } else {
                    p
                },
            )
        } else {
            us_of(fixed_ms)
        },
        None => us_of(fixed_ms),
    }
}

pub open spec fn us_of(ms: Option<u64>) -> Option<u64> {
    match ms {
        Some(m) => Some((m * 1000) as u64),
        None => None,
    }
}

/// The time, in microseconds, after which a second copy is asked.
pub fn hedge_threshold(adaptive: bool, p99_us: Option<u64>, fixed_ms: Option<u64>) -> (r: Option<
    u64,
>)
    requires
        fixed_ms matches Some(m) ==> m * 1000 <= u64::MAX,
    ensures
        r == hedge_after(adaptive, p99_us, fixed_ms),
{
    let fixed: Option<u64> = match fixed_ms {
        Some(m) => Some(m * 1000),
        None => None,
    };
    if !adaptive {
        return fixed;
    }
    match p99_us {
        Some(p) => {
            if p < 10_000 {
                Some(10_000)
            } else if p > 2_000_000 {
                Some(2_000_000)
            } else {
                Some(p)
            }
        },
        None => fixed,
    }
}

/// Whether a shard is in a list.
pub fn has_shard(v: &Vec<ShardId>, s: ShardId) -> (r: bool)
    ensures
        r == v@.contains(s),
{
    let mut i: usize = 0;
    while i < v.len()
        invariant
            i <= v@.len(),
            forall|j: int| 0 <= j < i ==> v@[j] != s,
        decreases v@.len() - i,
    {
        if v[i] == s {
            assert(v@[i as int] == s);
            return true;
        }
        i = i + 1;
    }
    false
}

/// No shard twice.
pub open spec fn distinct(v: Seq<ShardId>) -> bool {
    forall|i: int, j: int| 0 <= i < j < v.len() ==> v[i] != v[j]
}

/// The ranked shards that are not among the chosen ones, in order.
pub open spec fn spares_of(ranking: Seq<ShardId>, chosen: Seq<ShardId>) -> Seq<ShardId>
    decreases ranking.len(),
{
    if ranking.len() == 0 {
        Seq::empty()
    } else {
        let rest = spares_of(ranking.drop_last(), chosen);
        if chosen.contains(ranking.last()) {
            rest
        } else {
            rest.push(ranking.last())
        }
    }
}

proof fn lemma_spares(ranking: Seq<ShardId>, chosen: Seq<ShardId>)
    ensures
        forall|i: int|
            0 <= i < spares_of(ranking, chosen).len() ==> !chosen.contains(
                #[trigger] spares_of(ranking, chosen)[i],
            ) && ranking.contains(spares_of(ranking, chosen)[i]),
        distinct(ranking) ==> distinct(spares_of(ranking, chosen)),
    decreases ranking.len(),
{
    if ranking.len() > 0 {
        let p = ranking.drop_last();
        let s = spares_of(p, chosen);
        lemma_spares(p, chosen);
        assert forall|i: int| 0 <= i < s.len() implies ranking.contains(#[trigger] s[i]) by {
            let j = choose|j: int| 0 <= j < p.len() && p[j] == s[i];
            assert(ranking[j] == s[i]);
        }
        let x = ranking.last();
        assert(ranking[ranking.len() - 1] == x);
        if distinct(ranking) {
            assert(distinct(p)) by {
                assert forall|i: int, j: int| 0 <= i < j < p.len() implies p[i] != p[j] by {
                    assert(p[i] == ranking[i] && p[j] == ranking[j]);
                }
            }
            if !chosen.contains(x) {
                assert forall|i: int| 0 <= i < s.len() implies s[i] != x by {
                    let j = choose|j: int| 0 <= j < p.len() && p[j] == s[i];
                    assert(ranking[j] == s[i]);
                }
            }
        }
    }
}

/// The ranked shards that are not among the chosen ones, in order.
pub fn spares(ranking: &Vec<ShardId>, chosen: &Vec<ShardId>) -> (r: Vec<ShardId>)
    ensures
        r@ == spares_of(ranking@, chosen@),
{
    let mut out: Vec<ShardId> = Vec::new();
    let mut i: usize = 0;
    while i < ranking.len()
        invariant
            i <= ranking@.len(),
            out@ == spares_of(ranking@.take(i as int), chosen@),
        decreases ranking@.len() - i,
    {
        assert(ranking@.take(i + 1).drop_last() =~= ranking@.take(i as int));
        if !has_shard(chosen, ranking[i]) {
            out.push(ranking[i]);
        }
        i = i + 1;
    }
    assert(ranking@.take(ranking@.len() as int) =~= ranking@);
    out
}

/// A write in progress: the first attempts are done, failed ones are handed to
/// spare shards.
#[derive(Debug)]
pub struct PutRun {
    /// successful writes that are enough
    pub need: usize,
    /// the quorum an error reports
    pub want: usize,
    /// shards that hold the write
    pub acked: Vec<ShardId>,
    /// attempts that failed, by number
    pub failed: Vec<usize>,
    /// failed attempts that found a spare shard
    pub placed: usize,
    pub spares: Vec<ShardId>,
    pub next_spare: usize,
    pub last_err: Option<DomainError>,
}

/// The shards of the attempts that succeeded.
pub open spec fn acked_of(legs: Seq<ShardId>, out: Seq<(usize, DomainResult<()>)>) -> Seq<ShardId>
    decreases out.len(),
{
    if out.len() == 0 {
        Seq::empty()
    } else {
        let rest = acked_of(legs, out.drop_last());
        if out.last().1 is Ok {
            rest.push(legs[out.last().0 as int])
        } else {
            rest
        }
    }
}

/// The numbers of the attempts that failed.
pub open spec fn failed_of(out: Seq<(usize, DomainResult<()>)>) -> Seq<usize>
    decreases out.len(),
{
    if out.len() == 0 {
        Seq::empty()
    } else {
        let rest = failed_of(out.drop_last());
        if out.last().1 is Ok {
            rest
        } else {
            rest.push(out.last().0)
        }
    }
}

/// The last error among the outcomes.
pub open spec fn last_error_of(out: Seq<(usize, DomainResult<()>)>) -> Option<domain::ErrorView>
    decreases out.len(),
{
    if out.len() == 0 {
        None
    } else {
        match out.last().1 {
            Ok(_) => last_error_of(out.drop_last()),
            Err(e) => Some(e@),
        }
    }
}

/// An optional error by value.
pub open spec fn error_view(e: Option<DomainError>) -> Option<domain::ErrorView> {
    match e {
        Some(x) => Some(x@),
        None => None,
    }
}

/// Each outcome belongs to an attempt, none to the same one twice.
pub open spec fn outcomes_fit(legs: Seq<ShardId>, out: Seq<(usize, DomainResult<()>)>) -> bool {
    &&& forall|i: int| 0 <= i < out.len() ==> (#[trigger] out[i]).0 < legs.len()
    &&& forall|i: int, j: int|
        0 <= i < j < out.len() ==> (#[trigger] out[i]).0 != (#[trigger] out[j]).0
}

proof fn lemma_acked(legs: Seq<ShardId>, out: Seq<(usize, DomainResult<()>)>)
    requires
        distinct(legs),
        outcomes_fit(legs, out),
    ensures
        distinct(acked_of(legs, out)),
        forall|i: int|
            0 <= i < acked_of(legs, out).len() ==> exists|j: int|
                0 <= j < out.len() && #[trigger] acked_of(legs, out)[i] == legs[(
                #[trigger] out[j]).0 as int],
        acked_of(legs, out).len() + failed_of(out).len() == out.len(),
    decreases out.len(),
{
    if out.len() > 0 {
        let p = out.drop_last();
        assert(outcomes_fit(legs, p)) by {
            assert forall|i: int| 0 <= i < p.len() implies (#[trigger] p[i]).0 < legs.len() by {
                assert(p[i] == out[i]);
            }
            assert forall|i: int, j: int| 0 <= i < j < p.len() implies (#[trigger] p[i]).0 != (
            #[trigger] p[j]).0 by {
                assert(p[i] == out[i] && p[j] == out[j]);
            }
        }
        lemma_acked(legs, p);
        let a = acked_of(legs, p);
        let w = acked_of(legs, out);
        let x = out.last();
        assert(out[out.len() - 1] == x);
        if x.1 is Ok {
            let s = legs[x.0 as int];
            assert forall|i: int| 0 <= i < a.len() implies a[i] != s by {
                let j = choose|j: int| 0 <= j < p.len() && a[i] == legs[(#[trigger] p[j]).0 as int];
                assert(p[j] == out[j]);
                assert(out[j].0 != x.0);
                if out[j].0 < x.0 {
                    assert(legs[out[j].0 as int] != legs[x.0 as int]);
                } else {
                    assert(legs[x.0 as int] != legs[out[j].0 as int]);
                }
            }
        }
        assert forall|i: int| 0 <= i < w.len() implies exists|j: int|
            0 <= j < out.len() && #[trigger] w[i] == legs[(#[trigger] out[j]).0 as int] by {
            if i < a.len() {
                let j = choose|j: int| 0 <= j < p.len() && a[i] == legs[(#[trigger] p[j]).0 as int];
                assert(w[i] == legs[out[j].0 as int]);
            } else {
                assert(w[i] == legs[out[out.len() - 1].0 as int]);
            }
        }
    }
}

impl PutRun {
    /// The shards that hold the write are all different; spares still to be
    /// tried hold nothing yet.
    pub open spec fn wf(&self) -> bool {
        &&& self.placed <= self.failed@.len()
        &&& self.next_spare <= self.spares@.len()
        &&& distinct(self.acked@)
        &&& distinct(self.spares@)
        &&& forall|i: int|
            self.next_spare <= i < self.spares@.len() ==> !self.acked@.contains(
                #[trigger] self.spares@[i],
            )
    }

    /// Takes stock after the first attempts, `out` in order of arrival.
    pub fn settle(
        legs: &Vec<ShardId>,
        out: Vec<(usize, DomainResult<()>)>,
        ranking: &Vec<ShardId>,
        need: usize,
        want: usize,
    ) -> (r: PutRun)
        requires
            distinct(legs@),
            distinct(ranking@),
            outcomes_fit(legs@, out@),
        ensures
            r.wf(),
            r.need == need,
            r.want == want,
            r.acked@ == acked_of(legs@, out@),
            r.failed@ == failed_of(out@),
            r.placed == 0,
            r.spares@ == spares_of(ranking@, legs@),
            r.next_spare == 0,
            error_view(r.last_err) == last_error_of(out@),
    {
        let mut acked: Vec<ShardId> = Vec::new();
        let mut failed: Vec<usize> = Vec::new();
        let mut last_err: Option<DomainError> = None;
        let mut i: usize = 0;
        while i < out.len()
            invariant
                i <= out@.len(),
                outcomes_fit(legs@, out@),
                acked@ == acked_of(legs@, out@.take(i as int)),
                failed@ == failed_of(out@.take(i as int)),
                error_view(last_err) == last_error_of(out@.take(i as int)),
            decreases out@.len() - i,
        {
            assert(out@.take(i + 1).drop_last() =~= out@.take(i as int));
            assert(out@.take(i + 1).last() == out@[i as int]);
            let leg: usize = out[i].0;
            match &out[i].1 {
                Ok(_) => {
                    acked.push(legs[leg]);
                },
                Err(e) => {
                    failed.push(leg);
                    last_err = Some(e.clone());
                },
            }
            i = i + 1;
        }
        assert(out@.take(out@.len() as int) =~= out@);
        let sp = spares(ranking, legs);
        proof {
            lemma_acked(legs@, out@);
            lemma_spares(ranking@, legs@);
            assert forall|j: int| 0 <= j < sp@.len() implies !acked@.contains(
                #[trigger] sp@[j],
            ) by {
                if acked@.contains(sp@[j]) {
                    let a = choose|a: int| 0 <= a < acked@.len() && acked@[a] == sp@[j];
                    let b = choose|b: int|
                        0 <= b < out@.len() && acked@[a] == legs@[(#[trigger] out@[b]).0 as int];
                    assert(legs@.contains(sp@[j]));
                }
            }
        }
        PutRun { need, want, acked, failed, placed: 0, spares: sp, next_spare: 0, last_err }
    }

    /// The next attempt: which failed one, and on which spare shard.
    pub fn next(&self) -> (r: Option<(usize, ShardId)>)
        ensures
            r == (if self.placed < self.failed@.len() && self.next_spare < self.spares@.len() {
                Some((self.failed@[self.placed as int], self.spares@[self.next_spare as int]))
            } else {
                None
            }),
    {
        if self.placed < self.failed.len() && self.next_spare < self.spares.len() {
            Some((self.failed[self.placed], self.spares[self.next_spare]))
        } else {
            None
        }
    }

    /// Notes how the attempt on the spare shard went.
    pub fn handed_off(&mut self, outcome: DomainResult<()>)
        requires
            old(self).wf(),
            old(self).placed < old(self).failed.len(),
            old(self).next_spare < old(self).spares.len(),
        ensures
            final(self).wf(),
            final(self).need == old(self).need,
            final(self).want == old(self).want,
            final(self).failed@ == old(self).failed@,
            final(self).spares@ == old(self).spares@,
            final(self).next_spare == old(self).next_spare + 1,
            match outcome {
                Ok(_) => {
                    &&& final(self).acked@ == old(self).acked@.push(
                        old(self).spares@[old(self).next_spare as int],
                    )
                    &&& final(self).placed == old(self).placed + 1
                    &&& final(self).last_err == old(self).last_err
                },
                Err(e) => {
                    &&& final(self).acked@ == old(self).acked@
                    &&& final(self).placed == old(self).placed
                    &&& final(self).last_err == Some(e)
                },
            },
    {
        let s = self.spares[self.next_spare];
        let ghost before = self.acked@;
        match outcome {
            Ok(_) => {
                self.acked.push(s);
                self.placed = self.placed + 1;
                proof {
                    assert(!before.contains(s));
                    assert forall|i: int|
                        self.next_spare < i < self.spares@.len() implies !self.acked@.contains(
                        #[trigger] self.spares@[i],
                    ) by {
                        let x = self.spares@[i];
                        assert(x != s);
                        if self.acked@.contains(x) {
                            let j = choose|j: int| 0 <= j < self.acked@.len() && self.acked@[j] == x;
                            assert(before[j] == x);
                        }
                    }
                    assert forall|i: int, j: int| 0 <= i < j < self.acked@.len() implies self.acked@[i]
                        != self.acked@[j] by {
                        if j == before.len() {
                            assert(before[i] == self.acked@[i]);
                        }
                    }
                }
            },
            Err(e) => {
                self.last_err = Some(e);
            },
        }
        self.next_spare = self.next_spare + 1;
    }

    /// A write that missed a shard is queued for repair.
    pub fn needs_heal(&self) -> (r: bool)
        ensures
            r == (self.failed@.len() > 0),
    {
        self.failed.len() > 0
    }

    /// The result: success exactly when enough different shards hold the write,
    /// otherwise the last error.
    pub fn finish(&self) -> (r: DomainResult<()>)
        ensures
            r is Ok <==> self.acked@.len() >= self.need,
            r matches Err(e) ==> e@ == match error_view(self.last_err) {
                Some(x) => x,
                None => domain::ErrorView::QuorumNotReached(
                    self.acked@.len(),
                    self.want as nat,
                ),
            },
    {
        if self.acked.len() >= self.need {
            return Ok(());
        }
        match &self.last_err {
            Some(e) => Err(e.clone()),
            None => Err(
                DomainError::QuorumNotReached { ok: self.acked.len(), want: self.want },
            ),
        }
    }
}

/// How many shards a body is written to.
pub open spec fn width_of(cfg: PoolConfig, len: nat) -> nat {
    match cfg.ec {
        Some(ec) => if len >= ec.min_size {
            (ec.data + ec.parity) as nat
        } else {
            cfg.replicas as nat
        },
        None => cfg.replicas as nat,
    }
}

pub fn put_width(cfg: &PoolConfig, len: usize) -> (r: usize)
    requires
        cfg.ec matches Some(ec) ==> ec.data + ec.parity <= usize::MAX,
    ensures
        r == width_of(*cfg, len as nat),
{
    match cfg.ec {
        Some(ec) => {
            if len >= ec.min_size {
                ec.total()
            } else {
                cfg.replicas
            }
        },
        None => cfg.replicas,
    }
}

/// How a body is written to the shards that were found for it.
#[derive(Debug)]
pub struct PutPlan {
    /// a piece for each shard, or the whole body for all of them
    pub pieces: Option<Vec<Vec<u8>>>,
    /// the length of the object that the pieces belong to
    pub obj: Option<u64>,
    /// successful writes that are enough
    pub need: usize,
    /// the quorum an error reports
    pub want: usize,
}

/// [`PutPlan`] by value.
pub ghost struct PlanView {
    pub pieces: Option<Seq<Seq<u8>>>,
    pub obj: Option<u64>,
    pub need: nat,
    pub want: nat,
}

impl View for PutPlan {
    type V = PlanView;

    open spec fn view(&self) -> PlanView {
        PlanView {
            pieces: match self.pieces {
                Some(v) => Some(erasure::views(v@)),
                None => None,
            },
            obj: self.obj,
            need: self.need as nat,
            want: self.want as nat,
        }
    }
}

/// A large body is cut into pieces, a small one is copied; of either a quorum has to be
/// written, and there is no plan where fewer shards were found.
pub open spec fn planned_put(cfg: PoolConfig, data: Seq<u8>, legs: nat) -> Result<
    PlanView,
    domain::ErrorView,
> {
    match cfg.ec {
        Some(ec) if data.len() >= ec.min_size => {
            let (k, m, q) = (ec.data as nat, ec.parity as nat, ec.write_quorum as nat);
            if legs < q {
                Err(domain::ErrorView::QuorumNotReached(0, q))
            } else if !erasure::codec_exists(k, m) {
                Err(domain::ErrorView::Io(erasure::init_error(k, m)))
            } else {
                Ok(
                    PlanView {
                        pieces: Some(erasure::ec_pieces(data, k, m)),
                        obj: Some(data.len() as u64),
                        need: q,
                        want: q,
                    },
                )
            }
        },
        _ => {
            let q = cfg.write_quorum as nat;
            if legs < 1 || legs < q {
                Err(domain::ErrorView::QuorumNotReached(0, q))
            } else {
                Ok(PlanView { pieces: None, obj: None, need: q, want: q })
            }
        },
    }
}

/// Plans a write to `legs` shards.
pub fn plan_put(cfg: &PoolConfig, data: &[u8], legs: usize) -> (r: DomainResult<PutPlan>)
    requires
        cfg.ec matches Some(ec) ==> ec.data > 0 && ec.data + ec.parity <= usize::MAX,
    ensures
        (match r {
            Ok(p) => Ok::<PlanView, domain::ErrorView>(p@),
            Err(e) => Err(e@),
        }) == planned_put(*cfg, data@, legs as nat),
        r matches Ok(p) ==> (p.pieces is Some ==> cfg.ec is Some && erasure::parity_fits(
            data@,
            (cfg.ec->0).data as nat,
            (cfg.ec->0).parity as nat,
        )),
{
    match cfg.ec {
        Some(ec) => {
            if data.len() >= ec.min_size {
                let q: usize = ec.write_quorum;
                if legs < q {
                    return Err(DomainError::QuorumNotReached { ok: 0, want: q });
                }
                return match ec_encode(data, &ec) {
                    Ok(pieces) => Ok(
                        PutPlan {
                            pieces: Some(pieces),
                            obj: Some(data.len() as u64),
                            need: q,
                            want: q,
                        },
                    ),
                    Err(e) => Err(e),
                };
            }
        },
        None => {},
    }
    let q: usize = cfg.write_quorum;
    if legs < 1 || legs < q {
        return Err(DomainError::QuorumNotReached { ok: 0, want: q });
    }
    Ok(PutPlan { pieces: None, obj: None, need: q, want: q })
}

/// From the configured size on a body is coded: placement is asked for a shard per piece,
/// and a plan holds every piece of the whole body, its length, and the quorum of the code.
/// There is a plan once the quorum of shards was found and such a code exists.
pub proof fn large_bodies_are_coded(
    cfg: &PoolConfig,
    data: &[u8],
    legs: usize,
    len: usize,
    width: usize,
    plan: DomainResult<PutPlan>,
)
    requires
        cfg.ec is Some,
        data@.len() >= (cfg.ec->0).min_size,
        len == data@.len(),
        call_ensures(put_width, (cfg, len), width),
        call_ensures(plan_put, (cfg, data, legs), plan),
    ensures
        width == (cfg.ec->0).data + (cfg.ec->0).parity,
        plan matches Ok(p) ==> {
            &&& p.pieces is Some
            &&& (p.pieces->0)@.len() == (cfg.ec->0).data + (cfg.ec->0).parity
            &&& p.obj == Some(len as u64)
            &&& p.need == (cfg.ec->0).write_quorum
            &&& p.want == (cfg.ec->0).write_quorum
        },
        plan is Ok <==> legs >= (cfg.ec->0).write_quorum && 0 < (cfg.ec->0).data && 0 < (
        cfg.ec->0).parity && (cfg.ec->0).data + (cfg.ec->0).parity <= 256,
        legs < (cfg.ec->0).write_quorum ==> (plan matches Err(e) && e@
            == domain::ErrorView::QuorumNotReached(0, (cfg.ec->0).write_quorum as nat)),
        // any sufficient set of the planned pieces gives the body back
        plan matches Ok(p) ==> forall|slots: Seq<Option<Seq<u8>>>|
            {
                &&& slots.len() == (p.pieces->0)@.len()
                &&& erasure::present(slots) >= (cfg.ec->0).data
                &&& forall|i: int|
                    0 <= i < slots.len() && (#[trigger] slots[i]) is Some ==> slots[i]->0 == (
                    p.pieces->0)@[i]@
            } ==> #[trigger] erasure::recoverable(
                slots,
                data@,
                (cfg.ec->0).data as nat,
                (cfg.ec->0).parity as nat,
            ),
{
    if let Ok(p) = plan {
        let k = (cfg.ec->0).data as nat;
        let m = (cfg.ec->0).parity as nat;
        let all = erasure::ec_pieces(data@, k, m);
        assert(erasure::views((p.pieces->0)@) == all);
        assert(erasure::views((p.pieces->0)@).len() == (p.pieces->0)@.len());
        assert forall|slots: Seq<Option<Seq<u8>>>|
            {
                &&& slots.len() == (p.pieces->0)@.len()
                &&& erasure::present(slots) >= (cfg.ec->0).data
                &&& forall|i: int|
                    0 <= i < slots.len() && (#[trigger] slots[i]) is Some ==> slots[i]->0 == (
                    p.pieces->0)@[i]@
            } implies #[trigger] erasure::recoverable(slots, data@, k, m) by {
            assert forall|i: int| 0 <= i < slots.len() implies match #[trigger] slots[i] {
                Some(x) => x == all[i],
                None => true,
            } by {
                assert(erasure::views((p.pieces->0)@)[i] == (p.pieces->0)@[i]@);
            }
        }
    }
}

/// Below the configured size, or where no code is configured, a body is copied: placement
/// is asked for a shard per copy, and there is a plan once the quorum of shards was found.
pub proof fn small_bodies_are_copied(
    cfg: &PoolConfig,
    data: &[u8],
    legs: usize,
    len: usize,
    width: usize,
    plan: DomainResult<PutPlan>,
)
    requires
        cfg.ec is None || data@.len() < (cfg.ec->0).min_size,
        len == data@.len(),
        call_ensures(put_width, (cfg, len), width),
        call_ensures(plan_put, (cfg, data, legs), plan),
    ensures
        width == cfg.replicas,
        plan matches Ok(p) ==> {
            &&& p.pieces is None
            &&& p.obj is None
            &&& p.need == cfg.write_quorum
            &&& p.want == cfg.write_quorum
        },
        plan is Ok <==> legs >= cfg.write_quorum && legs >= 1,
        plan matches Err(e) ==> e@ == domain::ErrorView::QuorumNotReached(
            0,
            cfg.write_quorum as nat,
        ),
{
}

/// A write that is reported as done lies on as many different shards as the configuration
/// asks for, whether they got copies or pieces.
pub proof fn acknowledged_writes_reach_the_quorum(
    cfg: PoolConfig,
    data: Seq<u8>,
    legs: nat,
    run: PutRun,
    plan: PlanView,
)
    requires
        planned_put(cfg, data, legs) == Ok::<PlanView, domain::ErrorView>(plan),
        run.wf(),
        run.need == plan.need,
        run.acked@.len() >= run.need,
    ensures
        distinct(run.acked@),
        plan.pieces is None ==> run.acked@.len() >= cfg.write_quorum,
        plan.pieces is Some ==> run.acked@.len() >= (cfg.ec->0).write_quorum,
{
}

/// Whether a body gets an outboard record.
pub fn uses_outboard(cfg: &PoolConfig, key: &BlockKey, len: usize) -> (r: bool)
    ensures
        r == (cfg.outboard matches Some(ob) && len >= ob.min_size && !verified::is_outboard(key@)),
{
    match cfg.outboard {
        Some(ob) => len >= ob.min_size && !is_ob_key(key),
        None => false,
    }
}

/// The keys that a delete removes: the key and, where outboards are kept, its
/// outboard.
pub fn delete_keys(cfg: &PoolConfig, key: &BlockKey) -> (r: Vec<BlockKey>)
    ensures
        r@.len() >= 1,
        r@[0]@ == key@,
        r@.len() == (if cfg.outboard is Some && !verified::is_outboard(key@) {
            2int
        } else {
            1
        }),
        r@.len() == 2 ==> r@[1]@ == verified::outboard_key(key@),
{
    let mut out: Vec<BlockKey> = Vec::new();
    out.push(key.clone());
    if cfg.outboard.is_some() && !is_ob_key(key) {
        out.push(ob_key(key));
    }
    out
}

/// Shard `i`.
pub open spec fn shard(i: int) -> ShardId {
    ShardId(i as u16)
}

/// The shards that are not in a list, in order.
pub open spec fn others_of(v: Seq<ShardId>, n: nat) -> Seq<ShardId>
    decreases n,
{
    if n == 0 {
        Seq::empty()
    } else {
        let rest = others_of(v, (n - 1) as nat);
        if v.contains(shard(n - 1)) {
            rest
        } else {
            rest.push(shard(n - 1))
        }
    }
}

/// The shards that are not in a list, in order.
pub fn others(v: &Vec<ShardId>, n: usize) -> (r: Vec<ShardId>)
    requires
        n <= 0x1_0000,
    ensures
        r@ == others_of(v@, n as nat),
{
    let mut out: Vec<ShardId> = Vec::new();
    let mut i: usize = 0;
    while i < n
        invariant
            i <= n <= 0x1_0000,
            out@ == others_of(v@, i as nat),
        decreases n - i,
    {
        let s = ShardId(i as u16);
        if !has_shard(v, s) {
            out.push(s);
        }
        i = i + 1;
    }
    out
}

/// Every shard is either in the list or among the others.
pub proof fn others_complete(v: Seq<ShardId>, n: nat, i: int)
    requires
        0 <= i < n <= 0x1_0000,
    ensures
        v.contains(shard(i)) || others_of(v, n).contains(shard(i)),
    decreases n,
{
    let p = others_of(v, (n - 1) as nat);
    let w = others_of(v, n);
    if i < n - 1 {
        others_complete(v, (n - 1) as nat, i);
        if p.contains(shard(i)) {
            let j = choose|j: int| 0 <= j < p.len() && p[j] == shard(i);
            assert(w[j] == shard(i));
        }
    } else if !v.contains(shard(i)) {
        assert(w[p.len() as int] == shard(i));
    }
}

/// The order in which shards are asked for a key: its own first, then the rest.
pub fn ask_order(own: &Vec<ShardId>, n: usize) -> (r: Vec<ShardId>)
    requires
        n <= 0x1_0000,
    ensures
        r@ == own@ + others_of(own@, n as nat),
{
    let mut out: Vec<ShardId> = Vec::new();
    let mut i: usize = 0;
    while i < own.len()
        invariant
            i <= own@.len(),
            out@ =~= own@.take(i as int),
        decreases own@.len() - i,
    {
        out.push(own[i]);
        i = i + 1;
    }
    assert(own@.take(own@.len() as int) =~= own@);
    let mut rest = others(own, n);
    out.append(&mut rest);
    out
}

/// One listing of all shards: each key once, with the size the first shard that
/// lists it gives, at most `limit` keys.
pub fn merge_lists(lists: &Vec<Vec<(Vec<u8>, u64)>>, limit: usize) -> (r: Vec<(Vec<u8>, u64)>)
    ensures
        listing::item_views(r@) == listing::first_items(
            merged_all(lists@, lists@.len()),
            limit as nat,
        ),
{
    let mut acc: Vec<(Vec<u8>, u64)> = Vec::new();
    let mut i: usize = 0;
    assert(listing::item_views(acc@) =~= Seq::empty());
    while i < lists.len()
        invariant
            i <= lists@.len(),
            listing::item_views(acc@) == merged_all(lists@, i as nat),
        decreases lists@.len() - i,
    {
        acc = listing::merge(&acc, &lists[i], true, None);
        i = i + 1;
    }
    let none: Vec<(Vec<u8>, u64)> = Vec::new();
    let ghost all = merged_all(lists@, lists@.len());
    assert(listing::item_views(none@) =~= Seq::empty());
    assert(listing::merged(all, Seq::empty(), true) == all) by {
        if all.len() == 0 {
            assert(all =~= Seq::empty());
        }
    }
    listing::merge(&acc, &none, true, Some(limit))
}

/// The listings of the first `n` shards as one.
pub open spec fn merged_all(lists: Seq<Vec<(Vec<u8>, u64)>>, n: nat) -> Seq<(Seq<u8>, u64)>
    decreases n,
{
    if n == 0 {
        Seq::empty()
    } else {
        listing::merged(
            merged_all(lists, (n - 1) as nat),
            listing::item_views(lists[n - 1]@),
            true,
        )
    }
}

/// Where a read of a mirrored object stands.
#[derive(Clone, Copy, Debug, PartialEq, Eq, Structural)]
pub enum ReadPhase {
    /// the first copy was asked and has some time to answer
    First,
    /// the first two copies were asked; so many answers are still out
    Racing(u8),
    /// copy number so much was asked
    InOrder(usize),
    /// another shard, number so much among the others, was asked
    Sweep(usize),
    Done,
}

/// A read of a mirrored object.
#[derive(Debug)]
pub struct ReadRun {
    /// the shards that should hold the object
    pub own: Vec<ShardId>,
    /// all other shards
    pub rest: Vec<ShardId>,
    pub phase: ReadPhase,
    pub last_err: DomainError,
}

/// [`ReadRun`] by value.
pub ghost struct ReadView {
    pub own: Seq<ShardId>,
    pub rest: Seq<ShardId>,
    pub phase: ReadPhase,
    pub last_err: domain::ErrorView,
}

impl View for ReadRun {
    type V = ReadView;

    open spec fn view(&self) -> ReadView {
        ReadView {
            own: self.own@,
            rest: self.rest@,
            phase: self.phase,
            last_err: self.last_err@,
        }
    }
}

/// What came back.
#[derive(Debug)]
pub enum ReadEvent {
    Reply(DomainResult<Vec<u8>>),
    /// the time for the first copy is over
    Timeout,
    /// no more answers will come
    Gone,
}

/// [`ReadEvent`] by value.
pub ghost enum ReadEventView {
    Reply(Result<Seq<u8>, domain::ErrorView>),
    Timeout,
    Gone,
}

impl View for ReadEvent {
    type V = ReadEventView;

    open spec fn view(&self) -> ReadEventView {
        match *self {
            ReadEvent::Reply(r) => ReadEventView::Reply(domain::bytes_result(r)),
            ReadEvent::Timeout => ReadEventView::Timeout,
            ReadEvent::Gone => ReadEventView::Gone,
        }
    }
}

/// What to do next.
#[derive(Debug)]
pub enum ReadAction {
    /// ask this shard and wait for the hedging time
    AskFirst(ShardId),
    /// ask this shard too and wait for either answer
    AskSecond(ShardId),
    /// wait for the answer that is still out
    Wait,
    /// ask this shard and wait
    Ask(ShardId),
    Finish(DomainResult<Vec<u8>>),
}

/// [`ReadAction`] by value.
pub ghost enum ReadActionView {
    AskFirst(ShardId),
    AskSecond(ShardId),
    Wait,
    Ask(ShardId),
    Finish(Result<Seq<u8>, domain::ErrorView>),
}

impl View for ReadAction {
    type V = ReadActionView;

    open spec fn view(&self) -> ReadActionView {
        match *self {
            ReadAction::AskFirst(s) => ReadActionView::AskFirst(s),
            ReadAction::AskSecond(s) => ReadActionView::AskSecond(s),
            ReadAction::Wait => ReadActionView::Wait,
            ReadAction::Ask(s) => ReadActionView::Ask(s),
            ReadAction::Finish(r) => ReadActionView::Finish(domain::bytes_result(r)),
        }
    }
}

impl ReadView {
    pub open spec fn at(self, phase: ReadPhase) -> ReadView {
        ReadView { phase, ..self }
    }

    /// With the error of an answer noted; a missing key is no error.
    pub open spec fn noted(self, e: domain::ErrorView) -> ReadView {
        if e is NotFound {
            self
        } else {
            ReadView { last_err: e, ..self }
        }
    }

    /// Ask the others from number `i` on.
    pub open spec fn sweep(self, i: int) -> (ReadView, ReadActionView) {
        if i < self.rest.len() {
            (self.at(ReadPhase::Sweep(i as usize)), ReadActionView::Ask(self.rest[i]))
        } else {
            (self.at(ReadPhase::Done), ReadActionView::Finish(Err(self.last_err)))
        }
    }

    /// Ask the own shards from number `i` on.
    pub open spec fn in_order(self, i: int) -> (ReadView, ReadActionView) {
        if i < self.own.len() {
            (self.at(ReadPhase::InOrder(i as usize)), ReadActionView::Ask(self.own[i]))
        } else {
            self.sweep(0)
        }
    }

    /// The next state and action.
    pub open spec fn step(self, ev: ReadEventView) -> (ReadView, ReadActionView) {
        match self.phase {
            ReadPhase::First => match ev {
                ReadEventView::Reply(Ok(v)) => (
                    self.at(ReadPhase::Done),
                    ReadActionView::Finish(Ok(v)),
                ),
                ReadEventView::Reply(Err(e)) => self.noted(e).in_order(1),
                ReadEventView::Timeout => (
                    self.at(ReadPhase::Racing(2)),
                    ReadActionView::AskSecond(self.own[1]),
                ),
                ReadEventView::Gone => self.in_order(1),
            },
            ReadPhase::Racing(pending) => match ev {
                ReadEventView::Reply(Ok(v)) => (
                    self.at(ReadPhase::Done),
                    ReadActionView::Finish(Ok(v)),
                ),
                ReadEventView::Reply(Err(e)) => if pending <= 1 {
                    self.noted(e).in_order(2)
                } else {
                    (
                        self.noted(e).at(ReadPhase::Racing((pending - 1) as u8)),
                        ReadActionView::Wait,
                    )
                },
                ReadEventView::Timeout => (self, ReadActionView::Wait),
                ReadEventView::Gone => self.in_order(2),
            },
            ReadPhase::InOrder(i) => match ev {
                ReadEventView::Reply(Ok(v)) => (
                    self.at(ReadPhase::Done),
                    ReadActionView::Finish(Ok(v)),
                ),
                ReadEventView::Reply(Err(e)) => self.noted(e).in_order(i + 1),
                _ => self.in_order(i + 1),
            },
            ReadPhase::Sweep(i) => match ev {
                ReadEventView::Reply(Ok(v)) => (
                    self.at(ReadPhase::Done),
                    ReadActionView::Finish(Ok(v)),
                ),
                _ => self.sweep(i + 1),
            },
            ReadPhase::Done => (self, ReadActionView::Finish(Err(self.last_err))),
        }
    }

    /// Whether a shard has not been asked yet.
    pub open spec fn unasked(self, s: ShardId) -> bool {
        match self.phase {
            ReadPhase::First => self.rest.contains(s) || self.own.skip(1).contains(s),
            ReadPhase::Racing(_) => self.rest.contains(s) || self.own.skip(2).contains(s),
            ReadPhase::InOrder(i) => self.rest.contains(s) || self.own.skip(i + 1).contains(s),
            ReadPhase::Sweep(i) => self.rest.skip(i + 1).contains(s),
            ReadPhase::Done => false,
        }
    }
}

/// A read fails only after every shard was asked, and then with the last error
/// that was not a missing key.
pub proof fn read_fails_last(v: ReadView, ev: ReadEventView, s: ShardId)
    requires
        !(v.phase is Done),
        v.phase is First ==> v.own.len() >= 2,
        v.phase is Racing ==> v.own.len() >= 2,
        v.phase matches ReadPhase::InOrder(i) ==> i < v.own.len(),
        v.phase matches ReadPhase::Sweep(i) ==> i < v.rest.len(),
        v.step(ev).1 matches ReadActionView::Finish(Err(_)),
    ensures
        !v.unasked(s),
        v.step(ev).1 == ReadActionView::Finish(Err(v.step(ev).0.last_err)),
{
    match v.phase {
        ReadPhase::InOrder(i) => {
            assert(v.own.skip(i + 1) =~= Seq::empty());
            assert(v.rest =~= Seq::empty());
        },
        ReadPhase::Sweep(i) => {
            assert(v.rest.skip(i + 1) =~= Seq::empty());
        },
        ReadPhase::Racing(_) => {
            assert(v.own.skip(2) =~= Seq::empty());
            assert(v.rest =~= Seq::empty());
        },
        _ => {},
    }
}

/// A body is returned only if a shard answered with it.
pub proof fn read_returns_an_answer(v: ReadView, ev: ReadEventView, body: Seq<u8>)
    requires
        v.step(ev).1 == ReadActionView::Finish(Ok(body)),
    ensures
        ev == ReadEventView::Reply(Ok(body)),
{
}

impl ReadRun {
    pub open spec fn wf(&self) -> bool {
        &&& self.phase is First || self.phase is Racing ==> self.own@.len() >= 2
        &&& self.phase matches ReadPhase::InOrder(i) ==> i < self.own.len()
        &&& self.phase matches ReadPhase::Sweep(i) ==> i < self.rest.len()
    }

    fn sweep(&mut self, i: usize) -> (r: ReadAction)
        ensures
            (final(self)@, r@) == old(self)@.sweep(i as int),
            final(self).wf(),
    {
        if i < self.rest.len() {
            self.phase = ReadPhase::Sweep(i);
            ReadAction::Ask(self.rest[i])
        } else {
            self.phase = ReadPhase::Done;
            ReadAction::Finish(Err(self.last_err.clone()))
        }
    }

    fn in_order(&mut self, i: usize) -> (r: ReadAction)
        ensures
            (final(self)@, r@) == old(self)@.in_order(i as int),
            final(self).wf(),
    {
        if i < self.own.len() {
            self.phase = ReadPhase::InOrder(i);
            ReadAction::Ask(self.own[i])
        } else {
            self.sweep(0)
        }
    }

    fn note(&mut self, e: DomainError)
        ensures
            final(self)@ == old(self)@.noted(e@),
    {
        match e {
            DomainError::NotFound => {},
            _ => {
                self.last_err = e;
            },
        }
    }

    /// Starts a read.  With `hedge`, and a second copy to ask, the first copy
    /// gets only limited time.
    pub fn begin(own: Vec<ShardId>, n: usize, hedge: bool) -> (r: (ReadRun, ReadAction))
        requires
            n <= 0x1_0000,
        ensures
            r.0.wf(),
            ({
                let v = ReadView {
                    own: own@,
                    rest: others_of(own@, n as nat),
                    phase: ReadPhase::First,
                    last_err: domain::ErrorView::NotFound,
                };
                (r.0@, r.1@) == (if hedge && own@.len() >= 2 {
                    (v, ReadActionView::AskFirst(own@[0]))
                } else {
                    v.in_order(0)
                })
            }),
    {
        let rest = others(&own, n);
        let mut run = ReadRun {
            own,
            rest,
            phase: ReadPhase::First,
            last_err: DomainError::NotFound,
        };
        if hedge && run.own.len() >= 2 {
            let s = run.own[0];
            return (run, ReadAction::AskFirst(s));
        }
        let a = run.in_order(0);
        (run, a)
    }

    /// Goes on after an answer.
    pub fn advance(&mut self, ev: ReadEvent) -> (r: ReadAction)
        requires
            old(self).wf(),
        ensures
            (final(self)@, r@) == old(self)@.step(ev@),
            final(self).wf(),
    {
        match self.phase {
            ReadPhase::First => match ev {
                ReadEvent::Reply(Ok(v)) => {
                    self.phase = ReadPhase::Done;
                    ReadAction::Finish(Ok(v))
                },
                ReadEvent::Reply(Err(e)) => {
                    self.note(e);
                    self.in_order(1)
                },
                ReadEvent::Timeout => {
                    self.phase = ReadPhase::Racing(2);
                    ReadAction::AskSecond(self.own[1])
                },
                ReadEvent::Gone => self.in_order(1),
            },
            ReadPhase::Racing(pending) => match ev {
                ReadEvent::Reply(Ok(v)) => {
                    self.phase = ReadPhase::Done;
                    ReadAction::Finish(Ok(v))
                },
                ReadEvent::Reply(Err(e)) => {
                    self.note(e);
                    if pending <= 1 {
                        self.in_order(2)
                    } else {
                        self.phase = ReadPhase::Racing(pending - 1);
                        ReadAction::Wait
                    }
                },
                ReadEvent::Timeout => ReadAction::Wait,
                ReadEvent::Gone => self.in_order(2),
            },
            ReadPhase::InOrder(i) => {
                match ev {
                    ReadEvent::Reply(Ok(v)) => {
                        self.phase = ReadPhase::Done;
                        ReadAction::Finish(Ok(v))
                    },
                    ReadEvent::Reply(Err(e)) => {
                        self.note(e);
                        self.in_order(i + 1)
                    },
                    _ => self.in_order(i + 1),
                }
            },
            ReadPhase::Sweep(i) => {
                match ev {
                    ReadEvent::Reply(Ok(v)) => {
                        self.phase = ReadPhase::Done;
                        ReadAction::Finish(Ok(v))
                    },
                    _ => self.sweep(i + 1),
                }
            },
            ReadPhase::Done => ReadAction::Finish(Err(self.last_err.clone())),
        }
    }
}

/// The copies of an object on the shards.
pub ghost struct Copies {
    pub data: Seq<u8>,
    pub holders: Set<ShardId>,
}

/// A moment of a read: where it stands, what it wants done, and which shards were asked
/// and have not answered yet.
pub ghost struct ReadMoment {
    pub state: ReadView,
    pub action: ReadActionView,
    pub pending: Seq<ShardId>,
}

impl Copies {
    /// Whether a shard may answer like this.
    pub open spec fn replies(self, s: ShardId, ev: ReadEventView) -> bool {
        if self.holders.contains(s) {
            ev == ReadEventView::Reply(Ok(self.data))
        } else {
            ev matches ReadEventView::Reply(Err(_))
        }
    }

    /// Whether the shards may answer an action like this, with `left` unanswered then.  A
    /// shard that was asked with a time limit may take longer; the others answer in any
    /// order.
    pub open spec fn answers(self, m: ReadMoment, ev: ReadEventView, left: Seq<ShardId>) -> bool {
        match m.action {
            ReadActionView::AskFirst(s) => {
                ||| ev is Timeout && left == m.pending.push(s)
                ||| self.replies(s, ev) && left == m.pending
            },
            ReadActionView::AskSecond(s) => self.one_replies(m.pending.push(s), ev, left),
            ReadActionView::Wait => self.one_replies(m.pending, ev, left),
            ReadActionView::Ask(s) => self.replies(s, ev) && left == m.pending,
            ReadActionView::Finish(_) => false,
        }
    }

    /// Whether one of the asked shards answers, and the others are left.
    pub open spec fn one_replies(
        self,
        asked: Seq<ShardId>,
        ev: ReadEventView,
        left: Seq<ShardId>,
    ) -> bool {
        exists|i: int|
            0 <= i < asked.len() && self.replies(#[trigger] asked[i], ev) && left == asked.remove(i)
    }
}

/// Whether one moment of a read follows another.
pub open spec fn read_follows(c: Copies, m: ReadMoment, n: ReadMoment) -> bool {
    exists|ev: ReadEventView| #[trigger]
        c.answers(m, ev, n.pending) && (n.state, n.action) == m.state.step(ev)
}

/// The moments of a read of an object whose own shards are `own`, from its first on.
pub open spec fn is_read(
    c: Copies,
    own: Seq<ShardId>,
    n: nat,
    hedge: bool,
    run: Seq<ReadMoment>,
) -> bool {
    let v = ReadView {
        own,
        rest: others_of(own, n),
        phase: ReadPhase::First,
        last_err: domain::ErrorView::NotFound,
    };
    &&& run.len() > 0
    &&& run[0].pending.len() == 0
    &&& (run[0].state, run[0].action) == (if hedge && own.len() >= 2 {
        (v, ReadActionView::AskFirst(own[0]))
    } else {
        v.in_order(0)
    })
    &&& forall|i: int| 0 < i < run.len() ==> read_follows(c, run[i - 1], #[trigger] run[i])
}

/// What holds at every moment of a read while `h` holds a copy: it is still to be asked,
/// or its answer is still to come.
spec fn read_safe(c: Copies, h: ShardId, m: ReadMoment) -> bool {
    let v = m.state;
    &&& c.holders.contains(h)
    &&& v.own.len() <= usize::MAX && v.rest.len() <= usize::MAX
    &&& match v.phase {
        ReadPhase::First => {
            &&& v.own.len() >= 2
            &&& m.action == ReadActionView::AskFirst(v.own[0])
            &&& m.pending.len() == 0
            &&& v.own.contains(h) || v.rest.contains(h)
        },
        ReadPhase::Racing(p) => {
            let out = match m.action {
                ReadActionView::AskSecond(s) => m.pending.push(s),
                _ => m.pending,
            };
            &&& v.own.len() >= 2
            &&& m.action == ReadActionView::AskSecond(v.own[1]) || m.action is Wait
            &&& out.len() == p
            &&& p >= 1
            &&& out.contains(h) || v.own.skip(2).contains(h) || v.rest.contains(h)
        },
        ReadPhase::InOrder(i) => {
            &&& i < v.own.len()
            &&& m.action == ReadActionView::Ask(v.own[i as int])
            &&& v.own.skip(i as int).contains(h) || v.rest.contains(h)
        },
        ReadPhase::Sweep(i) => {
            &&& i < v.rest.len()
            &&& m.action == ReadActionView::Ask(v.rest[i as int])
            &&& v.rest.skip(i as int).contains(h)
        },
        ReadPhase::Done => m.action == ReadActionView::Finish(Ok(c.data)),
    }
}

pub(crate) proof fn lemma_skip_one(v: Seq<ShardId>, i: int, h: ShardId)
    requires
        0 <= i < v.len(),
        v.skip(i).contains(h),
        v[i] != h,
    ensures
        v.skip(i + 1).contains(h),
{
    let x = choose|x: int| 0 <= x < v.skip(i).len() && v.skip(i)[x] == h;
    assert(v.skip(i + 1)[x - 1] == h);
}

/// Going on in order, or with the other shards.
proof fn lemma_in_order(c: Copies, h: ShardId, v: ReadView, i: int, n: ReadMoment)
    requires
        c.holders.contains(h),
        v.own.len() <= usize::MAX,
        v.rest.len() <= usize::MAX,
        0 <= i <= v.own.len(),
        v.own.skip(i).contains(h) || v.rest.contains(h),
        (n.state, n.action) == v.in_order(i),
    ensures
        read_safe(c, h, n),
{
    if i == v.own.len() {
        assert(v.own.skip(i).len() == 0);
        assert(v.rest.skip(0) =~= v.rest);
    }
}

proof fn lemma_read_step(c: Copies, h: ShardId, m: ReadMoment, n: ReadMoment)
    requires
        read_safe(c, h, m),
        read_follows(c, m, n),
    ensures
        read_safe(c, h, n),
{
    let ev = choose|ev: ReadEventView| #[trigger]
        c.answers(m, ev, n.pending) && (n.state, n.action) == m.state.step(ev);
    let v = m.state;
    match v.phase {
        ReadPhase::First => {
            if ev is Timeout {
                let out = n.pending.push(v.own[1]);
                if v.own.contains(h) {
                    let x = choose|x: int| 0 <= x < v.own.len() && v.own[x] == h;
                    if x == 0 {
                        assert(out[0] == h);
                    } else if x == 1 {
                        assert(out[1] == h);
                    } else {
                        assert(v.own.skip(2)[x - 2] == h);
                    }
                }
            } else if let ReadEventView::Reply(Err(e)) = ev {
                assert(v.own.skip(0) =~= v.own);
                if v.own.contains(h) {
                    lemma_skip_one(v.own, 0, h);
                }
                lemma_in_order(c, h, v.noted(e), 1, n);
            }
        },
        ReadPhase::Racing(p) => {
            let out = match m.action {
                ReadActionView::AskSecond(s) => m.pending.push(s),
                _ => m.pending,
            };
            assert(c.one_replies(out, ev, n.pending));
            let i = choose|i: int|
                0 <= i < out.len() && c.replies(#[trigger] out[i], ev) && n.pending == out.remove(i);
            if let ReadEventView::Reply(Err(e)) = ev {
                assert(out[i] != h);
                if out.contains(h) {
                    let x = choose|x: int| 0 <= x < out.len() && out[x] == h;
                    if x < i {
                        assert(n.pending[x] == h);
                    } else {
                        assert(n.pending[x - 1] == h);
                    }
                }
                if p <= 1 {
                    assert(n.pending.len() == 0);
                    lemma_in_order(c, h, v.noted(e), 2, n);
                }
            }
        },
        ReadPhase::InOrder(i) => {
            if let ReadEventView::Reply(Err(e)) = ev {
                if v.own.skip(i as int).contains(h) {
                    lemma_skip_one(v.own, i as int, h);
                }
                lemma_in_order(c, h, v.noted(e), i + 1, n);
            }
        },
        ReadPhase::Sweep(i) => {
            if let ReadEventView::Reply(Err(_)) = ev {
                lemma_skip_one(v.rest, i as int, h);
                if i + 1 == v.rest.len() {
                    assert(v.rest.skip(i + 1).len() == 0);
                }
            }
        },
        ReadPhase::Done => {},
    }
}

proof fn lemma_read(
    c: Copies,
    own: Seq<ShardId>,
    n: nat,
    hedge: bool,
    h: int,
    run: Seq<ReadMoment>,
    i: int,
)
    requires
        own.len() <= usize::MAX,
        0 <= h < n <= 0x1_0000,
        c.holders.contains(shard(h)),
        is_read(c, own, n, hedge, run),
        0 <= i < run.len(),
    ensures
        read_safe(c, shard(h), run[i]),
    decreases i,
{
    if i > 0 {
        lemma_read(c, own, n, hedge, h, run, i - 1);
        assert(read_follows(c, run[i - 1], run[i]));
        lemma_read_step(c, shard(h), run[i - 1], run[i]);
    } else {
        others_complete(own, n, h);
        lemma_others_bound(own, n);
        assert(own.skip(0) =~= own);
        if !(hedge && own.len() >= 2) {
            let v = ReadView {
                own,
                rest: others_of(own, n),
                phase: ReadPhase::First,
                last_err: domain::ErrorView::NotFound,
            };
            lemma_in_order(c, shard(h), v, 0, run[0]);
        }
    }
}

pub(crate) proof fn lemma_others_bound(v: Seq<ShardId>, n: nat)
    ensures
        others_of(v, n).len() <= n,
    decreases n,
{
    if n > 0 {
        lemma_others_bound(v, (n - 1) as nat);
    }
}

/// An object is read back as long as one shard of the pool has a copy, whichever it is,
/// however slow the first shard is and in whatever order the answers come.
pub proof fn one_copy_gives_the_object(
    c: Copies,
    own: Seq<ShardId>,
    n: nat,
    hedge: bool,
    h: int,
    run: Seq<ReadMoment>,
    i: int,
)
    requires
        own.len() <= usize::MAX,
        0 <= h < n <= 0x1_0000,
        c.holders.contains(shard(h)),
        is_read(c, own, n, hedge, run),
        0 <= i < run.len(),
        run[i].action is Finish,
    ensures
        run[i].action == ReadActionView::Finish(Ok(c.data)),
{
    lemma_read(c, own, n, hedge, h, run, i);
}

/// A shard is a spare exactly when it is ranked and was not chosen, and spares keep the
/// order of the ranking.
pub proof fn spares_are_the_rest(ranking: Seq<ShardId>, chosen: Seq<ShardId>, s: ShardId)
    ensures
        spares_of(ranking, chosen).contains(s) <==> ranking.contains(s) && !chosen.contains(s),
        forall|i: int, j: int|
            0 <= i < j < spares_of(ranking, chosen).len() ==> exists|a: int, b: int|
                0 <= a < b < ranking.len() && #[trigger] ranking[a] == (#[trigger] spares_of(
                    ranking,
                    chosen,
                )[i]) && #[trigger] ranking[b] == (#[trigger] spares_of(ranking, chosen)[j]),
    decreases ranking.len(),
{
    let all = spares_of(ranking, chosen);
    lemma_spares(ranking, chosen);
    if ranking.len() > 0 {
        let p = ranking.drop_last();
        let s0 = spares_of(p, chosen);
        spares_are_the_rest(p, chosen, s);
        lemma_spares(p, chosen);
        assert(ranking[ranking.len() - 1] == ranking.last());
        if p.contains(s) {
            let a = choose|a: int| 0 <= a < p.len() && p[a] == s;
            assert(ranking[a] == s);
        }
        if ranking.contains(s) && !p.contains(s) {
            let a = choose|a: int| 0 <= a < ranking.len() && ranking[a] == s;
            if a < p.len() {
                assert(p[a] == s);
            }
            assert(s == ranking.last());
        }
        if s0.contains(s) {
            let i = choose|i: int| 0 <= i < s0.len() && s0[i] == s;
            assert(all[i] == s);
        }
        if !chosen.contains(ranking.last()) {
            assert(all[s0.len() as int] == ranking.last());
        }
        assert forall|i: int, j: int| 0 <= i < j < all.len() implies exists|a: int, b: int|
            0 <= a < b < ranking.len() && #[trigger] ranking[a] == (#[trigger] all[i])
                && #[trigger] ranking[b] == (#[trigger] all[j]) by {
            if j < s0.len() {
                let (a, b) = choose|a: int, b: int|
                    0 <= a < b < p.len() && #[trigger] p[a] == s0[i] && #[trigger] p[b] == s0[j];
                assert(ranking[a] == all[i] && ranking[b] == all[j]);
            } else {
                assert(p.contains(s0[i]));
                let a = choose|a: int| 0 <= a < p.len() && p[a] == s0[i];
                assert(ranking[a] == all[i] && ranking[ranking.len() - 1] == all[j]);
            }
        }
    }
}

proof fn lemma_stock(legs: Seq<ShardId>, out: Seq<(usize, DomainResult<()>)>, j: int)
    requires
        0 <= j < out.len(),
    ensures
        out[j].1 is Ok ==> acked_of(legs, out).contains(legs[out[j].0 as int]),
        out[j].1 is Err ==> failed_of(out).contains(out[j].0),
    decreases out.len(),
{
    let p = out.drop_last();
    let (a, f) = (acked_of(legs, out), failed_of(out));
    if j < p.len() {
        lemma_stock(legs, p, j);
        let (a0, f0) = (acked_of(legs, p), failed_of(p));
        if out[j].1 is Ok {
            let i = choose|i: int| 0 <= i < a0.len() && a0[i] == legs[out[j].0 as int];
            assert(a[i] == a0[i]);
        } else {
            let i = choose|i: int| 0 <= i < f0.len() && f0[i] == out[j].0;
            assert(f[i] == f0[i]);
        }
    } else if out[j].1 is Ok {
        assert(a[a.len() - 1] == legs[out[j].0 as int]);
    } else {
        assert(f[f.len() - 1] == out[j].0);
    }
}

/// Every attempt of a write is taken into account: a shard holds the write exactly when its
/// attempt succeeded, every other attempt is one to be handed off, and the error that may be
/// reported is that of the last attempt that failed.
pub proof fn every_attempt_counts(
    legs: &Vec<ShardId>,
    out: Vec<(usize, DomainResult<()>)>,
    ranking: &Vec<ShardId>,
    need: usize,
    want: usize,
    r: PutRun,
    j: int,
)
    requires
        distinct(legs@),
        outcomes_fit(legs@, out@),
        call_ensures(PutRun::settle, (legs, out, ranking, need, want), r),
        0 <= j < out@.len(),
    ensures
        out@[j].1 is Ok <==> r.acked@.contains(legs@[out@[j].0 as int]),
        out@[j].1 is Err <==> r.failed@.contains(out@[j].0),
        r.acked@.len() + r.failed@.len() == out@.len(),
        r.need == need && r.want == want,
        out@[j].1 is Err && (forall|k: int| j < k < out@.len() ==> (#[trigger] out@[k]).1 is Ok)
            ==> (r.last_err matches Some(e) && e@ == (out@[j].1->Err_0)@),
        (forall|k: int| 0 <= k < out@.len() ==> (#[trigger] out@[k]).1 is Ok) ==> r.last_err is None,
{
    lemma_stock(legs@, out@, j);
    lemma_acked(legs@, out@);
    lemma_last_error(out@, j);
    if out@[j].1 is Err && r.acked@.contains(legs@[out@[j].0 as int]) {
        let a = choose|a: int| 0 <= a < r.acked@.len() && r.acked@[a] == legs@[out@[j].0 as int];
        let b = lemma_whose_ack(legs@, out@, a);
        assert(out@[b].0 != out@[j].0) by {
            if b < j {
                assert(out@[b].0 != out@[j].0);
            } else {
                assert(out@[j].0 != out@[b].0);
            }
        }
        if out@[b].0 < out@[j].0 {
            assert(legs@[out@[b].0 as int] != legs@[out@[j].0 as int]);
        } else {
            assert(legs@[out@[j].0 as int] != legs@[out@[b].0 as int]);
        }
    }
    if out@[j].1 is Ok && r.failed@.contains(out@[j].0) {
        let a = choose|a: int| 0 <= a < r.failed@.len() && r.failed@[a] == out@[j].0;
        let b = lemma_whose_failure(out@, a);
        if b < j {
            assert(out@[b].0 != out@[j].0);
        } else {
            assert(out@[j].0 != out@[b].0);
        }
    }
}

proof fn lemma_whose_ack(legs: Seq<ShardId>, out: Seq<(usize, DomainResult<()>)>, i: int) -> (j: int)
    requires
        0 <= i < acked_of(legs, out).len(),
    ensures
        0 <= j < out.len(),
        out[j].1 is Ok,
        acked_of(legs, out)[i] == legs[out[j].0 as int],
    decreases out.len(),
{
    let p = out.drop_last();
    if i < acked_of(legs, p).len() {
        lemma_whose_ack(legs, p, i)
    } else {
        out.len() - 1
    }
}

proof fn lemma_whose_failure(out: Seq<(usize, DomainResult<()>)>, i: int) -> (j: int)
    requires
        0 <= i < failed_of(out).len(),
    ensures
        0 <= j < out.len(),
        out[j].1 is Err,
        failed_of(out)[i] == out[j].0,
    decreases out.len(),
{
    let p = out.drop_last();
    if i < failed_of(p).len() {
        lemma_whose_failure(p, i)
    } else {
        out.len() - 1
    }
}

proof fn lemma_last_error(out: Seq<(usize, DomainResult<()>)>, j: int)
    requires
        0 <= j < out.len(),
    ensures
        out[j].1 is Err && (forall|k: int| j < k < out.len() ==> (#[trigger] out[k]).1 is Ok)
            ==> last_error_of(out) == Some((out[j].1->Err_0)@),
        (forall|k: int| 0 <= k < out.len() ==> (#[trigger] out[k]).1 is Ok) ==> last_error_of(
            out,
        ) is None,
    decreases out.len(),
{
    let p = out.drop_last();
    assert(out[out.len() - 1] == out.last());
    if p.len() > 0 {
        let k = if j < p.len() {
            j
        } else {
            0
        };
        lemma_last_error(p, k);
        assert(forall|i: int| 0 <= i < p.len() ==> #[trigger] p[i] == out[i]);
    }
}

/// A shard that answers with a body ends the read with exactly that body, whenever it is
/// asked and however long the body is.
pub proof fn answers_are_returned_at_once(v: ReadView, body: Seq<u8>)
    requires
        !(v.phase is Done),
    ensures
        v.step(ReadEventView::Reply(Ok(body))).1 == ReadActionView::Finish(Ok(body)),
{
}

/// While the first copy keeps a read waiting, the second is asked, and only that.  An answer
/// that is no body leaves the other one to be waited for.
pub proof fn slow_copies_are_hedged(v: ReadView, e: domain::ErrorView)
    requires
        v.phase is First,
        v.own.len() >= 2,
    ensures
        ({
            let hedged = v.step(ReadEventView::Timeout);
            let waiting = hedged.0.step(ReadEventView::Reply(Err(e)));
            &&& hedged.1 == ReadActionView::AskSecond(v.own[1])
            &&& waiting.1 is Wait
            &&& waiting.0.step(ReadEventView::Reply(Err(e))).1 == (if v.own.len() > 2 {
                ReadActionView::Ask(v.own[2])
            } else if v.rest.len() > 0 {
                ReadActionView::Ask(v.rest[0])
            } else {
                ReadActionView::Finish(
                    Err(
                        if e is NotFound {
                            v.last_err
                        } else {
                            e
                        },
                    ),
                )
            })
        }),
{
}

/// The error that a read may end with is the last that a shard of the object gave, a missing
/// key aside: no other event changes it.
pub proof fn errors_come_from_shards(v: ReadView, ev: ReadEventView)
    ensures
        ({
            let next = v.step(ev).0.last_err;
            let own = v.phase is First || v.phase is Racing || v.phase is InOrder;
            match ev {
                ReadEventView::Reply(Err(e)) => if own && !(e is NotFound) {
                    next == e
                } else {
                    next == v.last_err
                },
                _ => next == v.last_err,
            }
        }),
{
}

/// The time before a second copy is asked lies between ten milliseconds and two seconds
/// where it follows recent reads, and is theirs within these bounds; it is the configured
/// one where it does not follow them or there were too few.
pub proof fn hedging_follows_recent_reads(
    adaptive: bool,
    p99_us: Option<u64>,
    fixed_ms: Option<u64>,
    r: Option<u64>,
)
    requires
        fixed_ms matches Some(m) ==> m * 1000 <= u64::MAX,
        call_ensures(hedge_threshold, (adaptive, p99_us, fixed_ms), r),
    ensures
        adaptive && p99_us is Some ==> r is Some && 10_000 <= r->0 <= 2_000_000,
        adaptive && p99_us is Some && 10_000 <= p99_us->0 <= 2_000_000 ==> r == p99_us,
        adaptive && p99_us is Some && p99_us->0 < 10_000 ==> r == Some(10_000u64),
        adaptive && p99_us is Some && p99_us->0 > 2_000_000 ==> r == Some(2_000_000u64),
        !adaptive || p99_us is None ==> r is Some == fixed_ms is Some,
        (!adaptive || p99_us is None) && fixed_ms is Some ==> r->0 == fixed_ms->0 * 1000,
{
}

/// A pool needs a copy and a write, no more writes than copies, and a shard for every copy.
pub proof fn pools_have_room_for_their_copies(replicas: usize, quorum: usize, shards: usize, r: bool)
    requires
        call_ensures(pool_config_ok, (replicas, quorum, shards), r),
    ensures
        r <==> replicas >= 1 && quorum >= 1 && quorum <= replicas && replicas <= shards,
{
}

/// A body gets an outboard record exactly when records are configured, the body is large
/// enough for one, and it is no record itself; with records a delete takes the record too.
pub proof fn records_follow_their_bodies(
    cfg: &PoolConfig,
    key: &BlockKey,
    len: usize,
    uses: bool,
    gone: Vec<BlockKey>,
)
    requires
        call_ensures(uses_outboard, (cfg, key, len), uses),
        call_ensures(delete_keys, (cfg, key), gone),
    ensures
        uses <==> cfg.outboard is Some && len >= (cfg.outboard->0).min_size
            && !verified::is_outboard(key@),
        gone@.len() >= 1 && gone@[0]@ == key@,
        uses ==> gone@.len() == 2 && gone@[1]@ == verified::outboard_key(key@),
        cfg.outboard is None || verified::is_outboard(key@) ==> gone@.len() == 1,
{
}

/// A new pool has the shards it was made with, all healthy, none slow, and nothing to repair;
/// what is asked of a shard is answered for that shard, and of no shard beyond the last.
pub proof fn new_pools_are_healthy(
    shards: usize,
    cfg: &PoolConfig,
    p: Pool,
    idx: usize,
    count: usize,
    status: Option<ShardStatus>,
    slow: bool,
)
    requires
        call_ensures(Pool::new, (shards, cfg), p),
        call_ensures(Pool::shard_count, (&p,), count),
        call_ensures(Pool::shard_status, (&p, idx), status),
        call_ensures(Pool::shard_slow, (&p, idx), slow),
    ensures
        count == shards,
        idx < shards ==> status == Some(ShardStatus::Online) && p.cap_overrides@[idx as int] is None,
        idx >= shards ==> status is None,
        !slow,
        p.mrf@.len() == 0,
        p.cap_overrides@.len() == shards && p.slow_flags@.len() == shards,
        !p.topo_valid,
{
}

/// What a pool says of a shard is what was last set for it.
pub proof fn shards_answer_for_themselves(
    p: &Pool,
    idx: usize,
    status: Option<ShardStatus>,
    slow: bool,
)
    requires
        p.wf(),
        call_ensures(Pool::shard_status, (p, idx), status),
        call_ensures(Pool::shard_slow, (p, idx), slow),
    ensures
        idx < p.statuses@.len() ==> status == Some(p.statuses@[idx as int]) && slow
            == p.slow_flags@[idx as int],
        idx >= p.statuses@.len() ==> status is None && !slow,
{
}

/// As long as an attempt has failed and a spare shard is left, the next spare takes the
/// write of the first failed attempt that has no place yet.
pub proof fn failed_writes_go_to_spares(run: &PutRun, r: Option<(usize, ShardId)>)
    requires
        run.wf(),
        call_ensures(PutRun::next, (run,), r),
    ensures
        r is Some <==> run.placed < run.failed@.len() && run.next_spare < run.spares@.len(),
        r is Some ==> (r->0).0 == run.failed@[run.placed as int] && (r->0).1
            == run.spares@[run.next_spare as int],
        r is Some ==> !run.acked@.contains((r->0).1),
{
}

/// A write is done exactly when as many shards as it needs hold it; it is queued for repair
/// exactly when some attempt failed. A write that is not done says what went wrong last, or
/// how many shards hold it.
pub proof fn enough_shards_make_a_write(run: &PutRun, heal: bool, r: DomainResult<()>)
    requires
        call_ensures(PutRun::needs_heal, (run,), heal),
        call_ensures(PutRun::finish, (run,), r),
    ensures
        r is Ok <==> run.need <= run.acked@.len(),
        heal <==> run.failed@.len() >= 1,
        r is Err && run.last_err is Some ==> (r->Err_0)@ == (run.last_err->0)@,
        r is Err && run.last_err is None ==> (r->Err_0)@ == domain::ErrorView::QuorumNotReached(
            run.acked@.len(),
            run.want as nat,
        ),
{
}

proof fn lemma_others(v: Seq<ShardId>, n: nat)
    requires
        n <= 0x1_0000,
    ensures
        distinct(others_of(v, n)),
        forall|j: int|
            0 <= j < others_of(v, n).len() ==> !v.contains(#[trigger] others_of(v, n)[j])
                && others_of(v, n)[j].0 < n,
    decreases n,
{
    if n > 0 {
        lemma_others(v, (n - 1) as nat);
        let p = others_of(v, (n - 1) as nat);
        let w = others_of(v, n);
        assert forall|j: int| 0 <= j < w.len() implies !v.contains(#[trigger] w[j]) && w[j].0
            < n by {
            if j < p.len() {
                assert(w[j] == p[j]);
            }
        }
        assert forall|i: int, j: int| 0 <= i < j < w.len() implies w[i] != w[j] by {
            assert(w[i] == p[i]);
            if j < p.len() {
                assert(w[j] == p[j]);
            }
        }
    }
}

/// A key is asked for at its own shards first, in their order, then at every other shard of
/// the pool: at each exactly once.
pub proof fn every_shard_is_asked_once(
    own: &Vec<ShardId>,
    n: usize,
    rest: Vec<ShardId>,
    r: Vec<ShardId>,
    s: ShardId,
)
    requires
        n <= 0x1_0000,
        distinct(own@),
        call_ensures(others, (own, n), rest),
        call_ensures(ask_order, (own, n), r),
    ensures
        distinct(r@),
        forall|i: int| 0 <= i < own@.len() ==> i < r@.len() && #[trigger] r@[i] == own@[i],
        r@.contains(s) <==> own@.contains(s) || s.0 < n,
        rest@.contains(s) <==> !own@.contains(s) && s.0 < n,
        r@ == own@ + rest@,
{
    let w = others_of(own@, n as nat);
    lemma_others(own@, n as nat);
    if s.0 < n {
        others_complete(own@, n as nat, s.0 as int);
        assert(shard(s.0 as int) == s);
    }
    if own@.contains(s) {
        let i = choose|i: int| 0 <= i < own@.len() && own@[i] == s;
        assert(r@[i] == s);
    }
    if w.contains(s) {
        let i = choose|i: int| 0 <= i < w.len() && w[i] == s;
        assert(r@[own@.len() + i] == s);
    }
    if r@.contains(s) {
        let i = choose|i: int| 0 <= i < r@.len() && r@[i] == s;
        if i < own@.len() {
            assert(own@[i] == s);
        } else {
            assert(w[i - own@.len()] == s);
        }
    }
    assert forall|i: int, j: int| 0 <= i < j < r@.len() implies r@[i] != r@[j] by {
        if j < own@.len() {
            assert(own@[i] != own@[j]);
        } else if i < own@.len() {
            assert(own@.contains(own@[i]));
            assert(!own@.contains(w[j - own@.len()]));
        } else {
            assert(w[i - own@.len()] != w[j - own@.len()]);
        }
    }
}

/// A read starts at the first of the key's shards, with limited time only where there is a
/// second copy to ask; without a shard of its own it starts with the others.
pub proof fn reads_begin_with_the_first_copy(
    own: Vec<ShardId>,
    n: usize,
    hedge: bool,
    r: (ReadRun, ReadAction),
)
    requires
        n <= 0x1_0000,
        call_ensures(ReadRun::begin, (own, n, hedge), r),
    ensures
        hedge && own@.len() >= 2 ==> r.1@ == ReadActionView::AskFirst(own@[0]),
        !(hedge && own@.len() >= 2) && own@.len() >= 1 ==> r.1@ == ReadActionView::Ask(own@[0]),
        own@.len() == 0 && n >= 1 ==> r.1@ == ReadActionView::Ask(ShardId(0)),
        own@.len() == 0 && n == 0 ==> r.1@ == ReadActionView::Finish(
            Err(domain::ErrorView::NotFound),
        ),
        r.0.own@ == own@,
{
    assert(r.0@.own == own@);
    if own@.len() == 0 {
        if n >= 1 {
            lemma_first_other(own@, n as nat);
        }
    }
}

proof fn lemma_first_other(v: Seq<ShardId>, n: nat)
    requires
        v.len() == 0,
        1 <= n <= 0x1_0000,
    ensures
        others_of(v, n).len() >= 1,
        others_of(v, n)[0] == ShardId(0),
    decreases n,
{
    if n > 1 {
        lemma_first_other(v, (n - 1) as nat);
    } else {
        assert(others_of(v, 0) =~= Seq::empty());
    }
}

proof fn lemma_all_lists(lists: Seq<Vec<(Vec<u8>, u64)>>, n: nat, key: Seq<u8>)
    requires
        n <= lists.len(),
        forall|i: int| 0 <= i < lists.len() ==> listing::keys_rise(
            listing::item_views((#[trigger] lists[i])@),
        ),
    ensures
        listing::keys_rise(merged_all(lists, n)),
        listing::lists_key(merged_all(lists, n), key) <==> exists|i: int|
            0 <= i < n && listing::lists_key(listing::item_views((#[trigger] lists[i])@), key),
    decreases n,
{
    if n > 0 {
        let p = merged_all(lists, (n - 1) as nat);
        let b = listing::item_views(lists[n - 1]@);
        lemma_all_lists(lists, (n - 1) as nat, key);
        listing::merge_lists_union(p, b, true, key);
        listing::merge_rises(p, b, true);
    }
}

proof fn lemma_first_list_wins(lists: Seq<Vec<(Vec<u8>, u64)>>, n: nat, i: int, x: (Seq<u8>, u64))
    requires
        0 <= i < n <= lists.len(),
        forall|j: int| 0 <= j < lists.len() ==> listing::keys_rise(
            listing::item_views((#[trigger] lists[j])@),
        ),
        listing::item_views(lists[i]@).contains(x),
        forall|j: int|
            0 <= j < i ==> !listing::lists_key(listing::item_views((#[trigger] lists[j])@), x.0),
    ensures
        merged_all(lists, n).contains(x),
    decreases n,
{
    let p = merged_all(lists, (n - 1) as nat);
    let b = listing::item_views(lists[n - 1]@);
    lemma_all_lists(lists, (n - 1) as nat, x.0);
    listing::lemma_merged_keeps(p, b, true, x);
    if i < n - 1 {
        lemma_first_list_wins(lists, (n - 1) as nat, i, x);
        if listing::lists_key(b, x.0) {
            let k = choose|k: int| 0 <= k < p.len() && p[k] == x;
            let m = choose|m: int| 0 <= m < b.len() && (#[trigger] b[m]).0 == x.0;
            listing::lemma_merged_both(p, b, true, k, m);
        }
    }
}

/// One listing of all shards: in order, each key once, at most as many as asked for. An entry
/// of a shard is there as it is unless an earlier shard lists its key, or as many keys as
/// asked for stand before it; and nothing is there that no shard lists.
pub proof fn listings_hold_every_key(
    lists: &Vec<Vec<(Vec<u8>, u64)>>,
    limit: usize,
    r: Vec<(Vec<u8>, u64)>,
    i: int,
    k: int,
    t: int,
)
    requires
        call_ensures(merge_lists, (lists, limit), r),
        forall|j: int| 0 <= j < lists@.len() ==> listing::keys_rise(
            listing::item_views((#[trigger] lists@[j])@),
        ),
        0 <= i < lists@.len(),
        0 <= k < lists@[i]@.len(),
        forall|j: int|
            0 <= j < i ==> !listing::lists_key(
                listing::item_views((#[trigger] lists@[j])@),
                lists@[i]@[k].0@,
            ),
    ensures
        r@.len() <= limit,
        listing::keys_rise(listing::item_views(r@)),
        ({
            let x = (lists@[i]@[k].0@, lists@[i]@[k].1);
            listing::item_views(r@).contains(x) || (r@.len() == limit && forall|q: int|
                0 <= q < r@.len() ==> crate::bytes::lex_lt((#[trigger] r@[q]).0@, x.0))
        }),
        0 <= t < r@.len() ==> exists|j: int|
            0 <= j < lists@.len() && listing::lists_key(
                listing::item_views((#[trigger] lists@[j])@),
                r@[t].0@,
            ),
{
    let n = lists@.len();
    let all = merged_all(lists@, n);
    let v = listing::item_views(r@);
    let l = listing::item_views(lists@[i]@);
    let x = (lists@[i]@[k].0@, lists@[i]@[k].1);
    assert(l[k] == x);
    assert(l.contains(x));
    lemma_all_lists(lists@, n, x.0);
    lemma_first_list_wins(lists@, n, i, x);
    assert(v.len() == r@.len());
    assert forall|q: int| 0 <= q < v.len() implies #[trigger] v[q] == all[q] by {}
    let p = choose|p: int| 0 <= p < all.len() && all[p] == x;
    if p < v.len() {
        assert(v[p] == x);
    } else {
        assert forall|q: int| 0 <= q < r@.len() implies crate::bytes::lex_lt(
            (#[trigger] r@[q]).0@,
            x.0,
        ) by {
            assert(v[q] == all[q]);
            assert(v[q].0 == r@[q].0@);
        }
    }
    assert forall|a: int, b: int| 0 <= a < b < v.len() implies crate::bytes::lex_lt(
        (#[trigger] v[a]).0,
        (#[trigger] v[b]).0,
    ) by {
        assert(v[a] == all[a] && v[b] == all[b]);
    }
    if 0 <= t < r@.len() {
        assert(v[t] == all[t] && v[t].0 == r@[t].0@);
        lemma_all_lists(lists@, n, r@[t].0@);
        assert(listing::lists_key(all, all[t].0));
    }
}

} // verus!
