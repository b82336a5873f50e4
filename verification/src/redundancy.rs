//! What repairs achieve: a mirrored object gets its copies back, an erasure-coded one its
//! pieces.
use vstd::prelude::*;
use crate::domain::ShardId;
use crate::ec_pool;
use crate::erasure;
use crate::piece;
use crate::pool;
use crate::repair;
use crate::repair::RepairPhase;

verus! {

/// A moment of a repair: where it stands, what it wants done, and what the shards hold
/// under the key.
pub ghost struct RepairMoment {
    pub state: repair::RepairView,
    pub action: repair::RepairActionView,
    pub held: Map<ShardId, Seq<u8>>,
}

/// Whether a body is written like this: the shard holds it afterwards; where the write
/// fails it may.
pub open spec fn written(
    held: Map<ShardId, Seq<u8>>,
    s: ShardId,
    body: Seq<u8>,
    ok: bool,
    after: Map<ShardId, Seq<u8>>,
) -> bool {
    after == held.insert(s, body) || !ok && after == held
}

/// Whether the shards answer an action like this, and what they hold afterwards.  A shard
/// may fail to answer and count as one without the key, and a write may fail, unless all
/// are `responsive`.
pub open spec fn carried_out(
    responsive: bool,
    held: Map<ShardId, Seq<u8>>,
    a: repair::RepairActionView,
    ev: repair::RepairEventView,
    after: Map<ShardId, Seq<u8>>,
) -> bool {
    match a {
        repair::RepairActionView::AskHas(s) => {
            &&& ev matches repair::RepairEventView::Has(b)
            &&& b ==> held.contains_key(s)
            &&& responsive ==> b == held.contains_key(s)
            &&& after == held
        },
        repair::RepairActionView::AskBody(s) => {
            &&& ev matches repair::RepairEventView::Body(b)
            &&& b matches Some(x) ==> held.contains_key(s) && held[s] == x
            &&& responsive && held.contains_key(s) ==> b is Some
            &&& after == held
        },
        repair::RepairActionView::PutPiece(s, p, _) => {
            &&& ev matches repair::RepairEventView::Put(ok)
            &&& responsive ==> ok
            &&& written(held, s, p, ok, after)
        },
        repair::RepairActionView::PutCopy(s, p) => {
            &&& ev matches repair::RepairEventView::Put(ok)
            &&& responsive ==> ok
            &&& written(held, s, p, ok, after)
        },
        repair::RepairActionView::Finish(_) => false,
    }
}

/// Whether one moment of a repair follows another.
pub open spec fn repair_follows(responsive: bool, a: RepairMoment, b: RepairMoment) -> bool {
    exists|ev: repair::RepairEventView| #[trigger]
        carried_out(responsive, a.held, a.action, ev, b.held) && (b.state, b.action)
            == a.state.step(ev) && a.state.rebuilt(ev, b.state, b.action)
}

/// The repair ended, and no write is left to do.
pub open spec fn is_complete(a: repair::RepairActionView) -> bool {
    a matches repair::RepairActionView::Finish(Ok(o)) && o.1 == 0
}

/// A mirrored object and the repair of it.
pub ghost struct Mirror {
    pub data: Seq<u8>,
    /// number of pieces and shards by rank, where objects may be erasure-coded
    pub ec: Option<(nat, Seq<ShardId>)>,
    /// shards of the copies
    pub desired: Seq<ShardId>,
    pub n: nat,
    pub replicas: nat,
    pub responsive: bool,
}

impl Mirror {
    /// The body is no piece, and the copies belong on the first shards by rank.
    pub open spec fn wf(self) -> bool {
        &&& piece::parsed_piece(self.data) is None
        &&& self.n <= 0x1_0000
        &&& self.desired.len() <= 0x1_0000
        &&& self.ec matches Some(e) ==> {
            &&& self.replicas <= e.0
            &&& e.1.len() <= 0x1_0000
            &&& self.desired == e.1.take(repair::least(self.replicas, e.1.len()) as int)
        }
    }

    /// Every shard holds the object or nothing.
    pub open spec fn copied(self, held: Map<ShardId, Seq<u8>>) -> bool {
        forall|s: ShardId| #[trigger] held.contains_key(s) ==> held[s] == self.data
    }

    /// Every shard that should has a copy.
    pub open spec fn whole(self, held: Map<ShardId, Seq<u8>>) -> bool {
        forall|j: int|
            0 <= j < self.desired.len() ==> held.contains_key(#[trigger] self.desired[j])
                && held[self.desired[j]] == self.data
    }

    /// Everything answers, and the shard of this number has a copy.
    pub open spec fn in_reach(self, held: Map<ShardId, Seq<u8>>, h: int) -> bool {
        self.responsive && 0 <= h < self.n && held.contains_key(pool::shard(h))
    }
}

/// The moments of a repair of a mirrored object, from its first on.
pub open spec fn is_mirror_repair(x: Mirror, run: Seq<RepairMoment>) -> bool {
    &&& run.len() > 0
    &&& (run[0].state, run[0].action) == repair::begun(x.ec, x.desired, x.n, x.replicas)
    &&& forall|i: int|
        0 < i < run.len() ==> repair_follows(x.responsive, run[i - 1], #[trigger] run[i])
}

/// What was held at first still is.
spec fn none_lost(first: Map<ShardId, Seq<u8>>, held: Map<ShardId, Seq<u8>>) -> bool {
    forall|s: ShardId| #[trigger] first.contains_key(s) ==> held.contains_key(s)
}

/// Shards that said that they hold the key do.
spec fn flags_hold(v: Seq<ShardId>, flags: Seq<bool>, held: Map<ShardId, Seq<u8>>) -> bool {
    forall|j: int|
        0 <= j < flags.len() && j < v.len() && #[trigger] flags[j] ==> held.contains_key(v[j])
}

/// Every shard of a copy has it or is about to get it.
spec fn gaps_known(x: Mirror, missing: Seq<ShardId>, held: Map<ShardId, Seq<u8>>) -> bool {
    &&& missing.len() <= x.desired.len()
    &&& forall|j: int|
        0 <= j < x.desired.len() ==> missing.contains(#[trigger] x.desired[j])
            || held.contains_key(x.desired[j])
}

/// What holds at every moment of a repair of a mirrored object; `h` is the number of a
/// shard with a copy.
spec fn mirror_safe(x: Mirror, h: int, first: Map<ShardId, Seq<u8>>, a: RepairMoment) -> bool {
    let v = a.state;
    let src = x.in_reach(first, h);
    &&& v.desired == x.desired && v.n == x.n
    &&& match x.ec {
        Some(e) => v.total == e.0 && v.targets == e.1 && v.legs == repair::least(
            x.replicas,
            e.1.len(),
        ),
        None => true,
    }
    &&& x.copied(a.held)
    &&& none_lost(first, a.held)
    &&& match v.phase {
        RepairPhase::Held(i) => {
            &&& x.ec is Some
            &&& i < repair::least(v.total, v.targets.len())
            &&& a.action == repair::RepairActionView::AskHas(v.targets[i as int])
            &&& v.held.len() == i
            &&& flags_hold(v.targets, v.held, a.held)
        },
        RepairPhase::Probe(i) => {
            &&& i < v.order.len() <= 0x2_0000
            &&& a.action == repair::RepairActionView::AskBody(v.order[i as int])
            &&& src ==> v.order.skip(i as int).contains(pool::shard(h))
        },
        RepairPhase::Copies(i) => {
            &&& i < v.desired.len()
            &&& a.action == repair::RepairActionView::AskHas(v.desired[i as int])
            &&& v.held.len() == i
            &&& flags_hold(v.desired, v.held, a.held)
            &&& v.body matches Some(b) ==> b == x.data
        },
        RepairPhase::Source(i) => {
            &&& i < v.order.len() <= 0x2_0000
            &&& a.action == repair::RepairActionView::AskBody(v.order[i as int])
            &&& src ==> v.order.skip(i as int).contains(pool::shard(h))
            &&& gaps_known(x, v.missing, a.held)
        },
        RepairPhase::WriteCopy(i) => {
            &&& i < v.missing.len()
            &&& v.body == Some(x.data)
            &&& a.action == repair::RepairActionView::PutCopy(v.missing[i as int], x.data)
            &&& v.done.len() == i
            &&& gaps_known(x, v.missing, a.held)
            &&& flags_hold(v.missing, v.done, a.held)
            &&& x.responsive ==> forall|j: int| 0 <= j < i ==> #[trigger] v.done[j]
        },
        RepairPhase::Done => {
            &&& a.action is Finish
            &&& is_complete(a.action) ==> x.whole(a.held)
            &&& src ==> is_complete(a.action)
        },
        _ => false,
    }
}

/// No write is left to do exactly when all succeeded.
proof fn lemma_outcome(done: Seq<bool>)
    ensures
        repair::outcome(done).0 <= done.len(),
        repair::outcome(done).1 == 0 <==> forall|j: int| 0 <= j < done.len() ==> #[trigger] done[j],
    decreases done.len(),
{
    let f = |x: bool| x;
    reveal(Seq::filter);
    if done.len() > 0 {
        let p = done.drop_last();
        lemma_outcome(p);
        assert(repair::outcome(p).0 == p.filter(f).len());
        if forall|j: int| 0 <= j < done.len() ==> #[trigger] done[j] {
            assert forall|j: int| 0 <= j < p.len() implies #[trigger] p[j] by {
                assert(done[j]);
            }
            assert(done[done.len() - 1]);
        } else {
            let j = choose|j: int| 0 <= j < done.len() && !(#[trigger] done[j]);
            if j < p.len() {
                assert(!p[j]);
            }
        }
    }
}

proof fn lemma_missing(desired: Seq<ShardId>, held: Seq<bool>, n: nat)
    requires
        n <= desired.len(),
        n <= held.len(),
    ensures
        ec_pool::missing_copies(desired, held, n).len() <= n,
        forall|j: int|
            0 <= j < n && !(#[trigger] held[j]) ==> ec_pool::missing_copies(desired, held, n).contains(
                desired[j],
            ),
    decreases n,
{
    if n > 0 {
        lemma_missing(desired, held, (n - 1) as nat);
        let p = ec_pool::missing_copies(desired, held, (n - 1) as nat);
        let w = ec_pool::missing_copies(desired, held, n);
        assert forall|j: int| 0 <= j < n && !(#[trigger] held[j]) implies w.contains(desired[j]) by {
            if j < n - 1 {
                assert(p.contains(desired[j]));
                let x = choose|x: int| 0 <= x < p.len() && p[x] == desired[j];
                assert(w[x] == desired[j]);
            } else {
                assert(w[w.len() - 1] == desired[j]);
            }
        }
    }
}

proof fn lemma_missing_ranks(flags: Seq<bool>)
    requires
        flags.len() <= usize::MAX,
    ensures
        forall|r: int|
            0 <= r < flags.len() && !(#[trigger] flags[r]) ==> exists|i: int|
                0 <= i < ec_pool::missing_ranks(flags).len() && (#[trigger] ec_pool::missing_ranks(
                    flags,
                )[i]) == r,
    decreases flags.len(),
{
    if flags.len() > 0 {
        let p = flags.drop_last();
        lemma_missing_ranks(p);
        let u = ec_pool::missing_ranks(p);
        let w = ec_pool::missing_ranks(flags);
        assert forall|r: int| 0 <= r < flags.len() && !(#[trigger] flags[r]) implies exists|i: int|
            0 <= i < w.len() && (#[trigger] w[i]) == r by {
            if r < p.len() {
                assert(!p[r]);
                let i = choose|i: int| 0 <= i < u.len() && (#[trigger] u[i]) == r;
                assert(w[i] == r);
            } else {
                assert(w[w.len() - 1] == r);
            }
        }
    }
}

/// Shards that look healthy: the first ones all hold the key.
proof fn lemma_healthy_heads(flags: Seq<bool>, total: nat, legs: nat)
    requires
        flags.len() <= usize::MAX,
        ec_pool::looks_healthy(flags, total, legs),
    ensures
        forall|r: int| 0 <= r < flags.len() && r < legs ==> #[trigger] flags[r],
{
    lemma_missing_ranks(flags);
    assert forall|r: int| 0 <= r < flags.len() && r < legs implies #[trigger] flags[r] by {
        if !flags[r] {
            let w = ec_pool::missing_ranks(flags);
            let i = choose|i: int| 0 <= i < w.len() && (#[trigger] w[i]) == r;
            assert(w[i] < legs);
        }
    }
}

/// The shard of a number below `n` is asked at some point.
proof fn lemma_asked(targets: Seq<ShardId>, n: nat, h: int)
    requires
        0 <= h < n <= 0x1_0000,
    ensures
        (targets + pool::others_of(targets, n)).contains(pool::shard(h)),
{
    pool::others_complete(targets, n, h);
    let rest = pool::others_of(targets, n);
    let all = targets + rest;
    let s = pool::shard(h);
    if targets.contains(s) {
        let x = choose|x: int| 0 <= x < targets.len() && targets[x] == s;
        assert(all[x] == s);
    } else {
        let x = choose|x: int| 0 <= x < rest.len() && rest[x] == s;
        assert(all[targets.len() + x] == s);
    }
}

proof fn lemma_holders_len(desired: Seq<ShardId>, held: Seq<bool>, n: nat)
    ensures
        repair::holders_of(desired, held, n).len() <= n,
    decreases n,
{
    if n > 0 {
        lemma_holders_len(desired, held, (n - 1) as nat);
    }
}

/// Going on with the copies that are to be written.
proof fn lemma_copy_on(
    x: Mirror,
    h: int,
    first: Map<ShardId, Seq<u8>>,
    v: repair::RepairView,
    i: int,
    b: RepairMoment,
)
    requires
        x.wf(),
        v.desired == x.desired && v.n == x.n,
        x.ec matches Some(e) ==> v.total == e.0 && v.targets == e.1 && v.legs == repair::least(
            x.replicas,
            e.1.len(),
        ),
        x.copied(b.held),
        none_lost(first, b.held),
        v.body == Some(x.data),
        0 <= i <= v.missing.len(),
        v.done.len() == i,
        gaps_known(x, v.missing, b.held),
        flags_hold(v.missing, v.done, b.held),
        x.responsive ==> forall|j: int| 0 <= j < i ==> #[trigger] v.done[j],
        (b.state, b.action) == v.copy_from(i),
    ensures
        mirror_safe(x, h, first, b),
{
    if i == v.missing.len() {
        lemma_outcome(v.done);
        if is_complete(b.action) {
            assert forall|j: int| 0 <= j < x.desired.len() implies b.held.contains_key(
                #[trigger] x.desired[j],
            ) && b.held[x.desired[j]] == x.data by {
                if v.missing.contains(x.desired[j]) {
                    let y = choose|y: int| 0 <= y < v.missing.len() && v.missing[y] == x.desired[j];
                    assert(v.done[y]);
                }
            }
        }
    }
}

/// Going on with the question which copies are there.
proof fn lemma_copies_on(
    x: Mirror,
    h: int,
    first: Map<ShardId, Seq<u8>>,
    v: repair::RepairView,
    i: int,
    b: RepairMoment,
)
    requires
        x.wf(),
        v.desired == x.desired && v.n == x.n,
        x.ec matches Some(e) ==> v.total == e.0 && v.targets == e.1 && v.legs == repair::least(
            x.replicas,
            e.1.len(),
        ),
        x.copied(b.held),
        none_lost(first, b.held),
        0 <= i <= v.desired.len(),
        v.held.len() == i,
        flags_hold(v.desired, v.held, b.held),
        v.body matches Some(y) ==> y == x.data,
        (b.state, b.action) == v.copies_from(i),
    ensures
        mirror_safe(x, h, first, b),
{
    if i == v.desired.len() {
        let missing = ec_pool::missing_copies(v.desired, v.held, v.desired.len());
        lemma_missing(v.desired, v.held, v.desired.len());
        let w = repair::RepairView { missing, ..v };
        assert(gaps_known(x, missing, b.held)) by {
            assert forall|j: int| 0 <= j < x.desired.len() implies missing.contains(
                #[trigger] x.desired[j],
            ) || b.held.contains_key(x.desired[j]) by {
                if v.held[j] {
                    assert(b.held.contains_key(v.desired[j]));
                } else {
                    assert(missing.contains(v.desired[j]));
                }
            }
        }
        if missing.len() > 0 {
            if v.body is Some {
                let u = repair::RepairView {
                    body: Some(x.data),
                    unit: x.data.len(),
                    base: 1,
                    done: Seq::empty(),
                    ..w
                };
                assert(w.with_body(x.data) == u.copy_from(0));
                lemma_copy_on(x, h, first, u, 0, b);
            } else {
                let holders = repair::holders_of(v.desired, v.held, v.desired.len());
                lemma_holders_len(v.desired, v.held, v.desired.len());
                let all = repair::all_shards(v.n);
                let order = holders + all;
                if x.in_reach(first, h) {
                    assert(all[h] == pool::shard(h));
                    assert(order[holders.len() + h] == pool::shard(h));
                    assert(order.skip(0) =~= order);
                    assert(order.contains(pool::shard(h)));
                }
            }
        }
    }
}

/// Going on with the question who holds the key.
proof fn lemma_held_on(
    x: Mirror,
    h: int,
    first: Map<ShardId, Seq<u8>>,
    v: repair::RepairView,
    i: int,
    b: RepairMoment,
)
    requires
        x.wf(),
        v.desired == x.desired && v.n == x.n,
        x.ec matches Some(e) && v.total == e.0 && v.targets == e.1 && v.legs == repair::least(
            x.replicas,
            e.1.len(),
        ),
        x.copied(b.held),
        none_lost(first, b.held),
        0 <= i <= repair::least(v.total, v.targets.len()),
        v.held.len() == i,
        flags_hold(v.targets, v.held, b.held),
        (b.state, b.action) == v.held_from(i),
    ensures
        mirror_safe(x, h, first, b),
{
    if i == repair::least(v.total, v.targets.len()) {
        if ec_pool::looks_healthy(v.held, v.total, v.legs) {
            lemma_healthy_heads(v.held, v.total, v.legs);
            assert forall|j: int| 0 <= j < x.desired.len() implies b.held.contains_key(
                #[trigger] x.desired[j],
            ) && b.held[x.desired[j]] == x.data by {
                assert(x.desired[j] == v.targets[j]);
                assert(v.held[j]);
            }
        } else {
            let rest = pool::others_of(v.targets, v.n);
            let order = v.targets + rest;
            pool::lemma_others_bound(v.targets, v.n);
            assert(order.skip(0) =~= order);
            if x.in_reach(first, h) {
                lemma_asked(v.targets, v.n, h);
            }
        }
    }
}

proof fn lemma_mirror_step(
    x: Mirror,
    h: int,
    first: Map<ShardId, Seq<u8>>,
    a: RepairMoment,
    b: RepairMoment,
)
    requires
        x.wf(),
        mirror_safe(x, h, first, a),
        repair_follows(x.responsive, a, b),
    ensures
        mirror_safe(x, h, first, b),
{
    let ev = choose|ev: repair::RepairEventView| #[trigger]
        carried_out(x.responsive, a.held, a.action, ev, b.held) && (b.state, b.action)
            == a.state.step(ev) && a.state.rebuilt(ev, b.state, b.action);
    let v = a.state;
    match v.phase {
        RepairPhase::Held(i) => {
            let yes = ev->Has_0;
            let w = repair::RepairView { held: v.held.push(yes), ..v };
            assert(flags_hold(w.targets, w.held, b.held)) by {
                assert forall|j: int|
                    0 <= j < w.held.len() && j < w.targets.len()
                        && #[trigger] w.held[j] implies b.held.contains_key(w.targets[j]) by {
                    if j < i {
                        assert(v.held[j]);
                    }
                }
            }
            lemma_held_on(x, h, first, w, i + 1, b);
        },
        RepairPhase::Probe(i) => {
            let reply = ev->Body_0;
            if let Some(y) = reply {
                assert(y == x.data);
                let w = repair::RepairView { body: Some(y), held: Seq::empty(), ..v };
                lemma_copies_on(x, h, first, w, 0, b);
            } else {
                if x.in_reach(first, h) {
                    pool::lemma_skip_one(v.order, i as int, pool::shard(h));
                    assert(i + 1 < v.order.len());
                }
            }
        },
        RepairPhase::Copies(i) => {
            let yes = ev->Has_0;
            let w = repair::RepairView { held: v.held.push(yes), ..v };
            assert(flags_hold(w.desired, w.held, b.held)) by {
                assert forall|j: int|
                    0 <= j < w.held.len() && j < w.desired.len()
                        && #[trigger] w.held[j] implies b.held.contains_key(w.desired[j]) by {
                    if j < i {
                        assert(v.held[j]);
                    }
                }
            }
            lemma_copies_on(x, h, first, w, i + 1, b);
        },
        RepairPhase::Source(i) => {
            let reply = ev->Body_0;
            if let Some(y) = reply {
                assert(y == x.data);
                let w = repair::RepairView {
                    body: Some(y),
                    unit: y.len(),
                    base: 1,
                    done: Seq::empty(),
                    ..v
                };
                lemma_copy_on(x, h, first, w, 0, b);
            } else {
                if x.in_reach(first, h) {
                    pool::lemma_skip_one(v.order, i as int, pool::shard(h));
                    assert(i + 1 < v.order.len());
                }
            }
        },
        RepairPhase::WriteCopy(i) => {
            let ok = ev->Put_0;
            let w = repair::RepairView { done: v.done.push(ok), ..v };
            assert(flags_hold(w.missing, w.done, b.held)) by {
                assert forall|j: int|
                    0 <= j < w.done.len() && j < w.missing.len()
                        && #[trigger] w.done[j] implies b.held.contains_key(w.missing[j]) by {
                    if j < i {
                        assert(v.done[j]);
                    }
                }
            }
            assert(gaps_known(x, w.missing, b.held));
            lemma_copy_on(x, h, first, w, i + 1, b);
        },
        _ => {},
    }
}

proof fn lemma_mirror_repair(x: Mirror, h: int, run: Seq<RepairMoment>, i: int)
    requires
        x.wf(),
        x.copied(run[0].held),
        is_mirror_repair(x, run),
        0 <= i < run.len(),
    ensures
        mirror_safe(x, h, run[0].held, run[i]),
    decreases i,
{
    let first = run[0].held;
    if i > 0 {
        lemma_mirror_repair(x, h, run, i - 1);
        assert(repair_follows(x.responsive, run[i - 1], run[i]));
        lemma_mirror_step(x, h, first, run[i - 1], run[i]);
    } else {
        let v = repair::RepairView {
            total: 0,
            legs: 0,
            targets: Seq::empty(),
            desired: x.desired,
            n: x.n,
            phase: RepairPhase::Done,
            order: Seq::empty(),
            held: Seq::empty(),
            reads: Seq::empty(),
            slots: Seq::empty(),
            ranks: Seq::empty(),
            k: 0,
            m: 0,
            object: 0,
            plan: Seq::empty(),
            body: None,
            missing: Seq::empty(),
            done: Seq::empty(),
            unit: 0,
            base: 0,
        };
        match x.ec {
            Some(e) => {
                let w = repair::RepairView {
                    total: e.0,
                    targets: e.1,
                    legs: repair::least(x.replicas, e.1.len()),
                    ..v
                };
                lemma_held_on(x, h, first, w, 0, run[0]);
            },
            None => lemma_copies_on(x, h, first, v, 0, run[0]),
        }
    }
}

/// A repair of a mirrored object that reports nothing left to do leaves a copy on every
/// shard that should have one, and no shard loses its copy on the way.  It does report
/// that when every shard answers and any one of the pool has a copy.
pub proof fn repaired_mirrors_are_whole(x: Mirror, h: int, run: Seq<RepairMoment>, i: int)
    requires
        x.wf(),
        x.copied(run[0].held),
        is_mirror_repair(x, run),
        0 <= i < run.len(),
    ensures
        is_complete(run[i].action) ==> x.whole(run[i].held),
        run[i].action is Finish && x.in_reach(run[0].held, h) ==> is_complete(run[i].action),
        x.copied(run[i].held),
        forall|s: ShardId| #[trigger]
            run[0].held.contains_key(s) ==> run[i].held.contains_key(s),
{
    lemma_mirror_repair(x, h, run, i);
}

/// An erasure-coded object and the repair of it.
pub ghost struct Coded {
    pub data: Seq<u8>,
    pub k: nat,
    pub m: nat,
    /// number of pieces that the pool cuts objects into
    pub total: nat,
    /// shards by rank
    pub targets: Seq<ShardId>,
    /// shards of the copies of mirrored objects
    pub desired: Seq<ShardId>,
    pub n: nat,
    pub replicas: nat,
    pub responsive: bool,
}

impl Coded {
    pub open spec fn wf(self) -> bool {
        &&& erasure::codec_exists(self.k, self.m)
        &&& self.data.len() <= u64::MAX
        &&& erasure::parity_fits(self.data, self.k, self.m)
        &&& self.n <= 0x1_0000
        &&& self.targets.len() <= 0x1_0000
        &&& pool::distinct(self.targets)
    }

    pub open spec fn pieces(self) -> Seq<Seq<u8>> {
        erasure::ec_pieces(self.data, self.k, self.m)
    }

    /// Number of ranks that should have a piece.
    pub open spec fn width(self) -> nat {
        repair::least(self.k + self.m, self.targets.len())
    }

    /// Every shard holds one of the pieces, no matter which, or nothing.
    pub open spec fn cut(self, held: Map<ShardId, Seq<u8>>) -> bool {
        forall|s: ShardId| #[trigger] held.contains_key(s) ==> self.pieces().contains(held[s])
    }

    /// The shard of a rank holds the piece of that rank.
    pub open spec fn in_place(self, held: Map<ShardId, Seq<u8>>, r: int) -> bool {
        held.contains_key(self.targets[r]) && held[self.targets[r]] == self.pieces()[r]
    }

    /// Every rank has its piece.
    pub open spec fn whole(self, held: Map<ShardId, Seq<u8>>) -> bool {
        forall|r: int| 0 <= r < self.width() ==> #[trigger] self.in_place(held, r)
    }

    /// Which of the shards by rank hold anything.
    pub open spec fn flags(self, held: Map<ShardId, Seq<u8>>) -> Seq<bool> {
        Seq::new(
            repair::least(self.total, self.targets.len()),
            |r: int| held.contains_key(self.targets[r]),
        )
    }

    /// If the object looks healthy, it is: it is not taken for a mirrored one, and no piece
    /// lies where another belongs while all shards hold something.
    pub open spec fn telling(self, held: Map<ShardId, Seq<u8>>) -> bool {
        ec_pool::looks_healthy(
            self.flags(held),
            self.total,
            repair::least(self.replicas, self.targets.len()),
        ) ==> self.whole(held)
    }

    /// The shards that are no targets.
    pub open spec fn rest(self) -> Seq<ShardId> {
        pool::others_of(self.targets, self.n)
    }

    /// One of the first `to` shards holds this piece.
    pub open spec fn held_by(
        self,
        held: Map<ShardId, Seq<u8>>,
        v: Seq<ShardId>,
        to: int,
        j: int,
    ) -> bool {
        exists|y: int|
            0 <= y < to && y < v.len() && held.contains_key(#[trigger] v[y]) && held[v[y]]
                == self.pieces()[j]
    }

    /// The pieces that a repair can find.
    pub open spec fn within_reach(self, held: Map<ShardId, Seq<u8>>) -> Seq<Option<Seq<u8>>> {
        Seq::new(
            self.k + self.m,
            |j: int|
                if self.held_by(held, self.targets, self.width() as int, j) || self.held_by(
                    held,
                    self.rest(),
                    self.rest().len() as int,
                    j,
                ) {
                    Some(self.pieces()[j])
                } else {
                    None
                },
        )
    }

    /// Everything answers, and enough pieces are there.
    pub open spec fn in_reach(self, held: Map<ShardId, Seq<u8>>) -> bool {
        self.responsive && erasure::present(self.within_reach(held)) >= self.k
    }
}

/// Whether one moment of the repair of an erasure-coded object follows another; who holds
/// the key is answered truly.
pub open spec fn coded_follows(responsive: bool, a: RepairMoment, b: RepairMoment) -> bool {
    exists|ev: repair::RepairEventView| #[trigger]
        carried_out(responsive, a.held, a.action, ev, b.held) && (b.state, b.action)
            == a.state.step(ev) && a.state.rebuilt(ev, b.state, b.action) && truly_answered(a, ev)
}

pub open spec fn truly_answered(a: RepairMoment, ev: repair::RepairEventView) -> bool {
    a.action matches repair::RepairActionView::AskHas(s) ==> ev == repair::RepairEventView::Has(
        a.held.contains_key(s),
    )
}

/// The moments of a repair of an erasure-coded object, from its first on.
pub open spec fn is_coded_repair(x: Coded, run: Seq<RepairMoment>) -> bool {
    &&& run.len() > 0
    &&& (run[0].state, run[0].action) == repair::begun(
        Some((x.total, x.targets)),
        x.desired,
        x.n,
        x.replicas,
    )
    &&& forall|i: int|
        0 < i < run.len() ==> coded_follows(x.responsive, run[i - 1], #[trigger] run[i])
}

/// Every rank has its piece or is about to get it.
spec fn ranks_known(x: Coded, ranks: Seq<usize>, held: Map<ShardId, Seq<u8>>) -> bool {
    &&& ranks.len() <= x.width()
    &&& forall|i: int| 0 <= i < ranks.len() ==> (#[trigger] ranks[i]) < x.width()
    &&& forall|r: int|
        0 <= r < x.width() ==> (#[trigger] x.in_place(held, r)) || exists|i: int|
            0 <= i < ranks.len() && (#[trigger] ranks[i]) == r
}

/// The first shards gave what they hold.
spec fn reads_hold(x: Coded, reads: Seq<Option<Seq<u8>>>, held: Map<ShardId, Seq<u8>>) -> bool {
    &&& forall|q: int|
        0 <= q < reads.len() && (#[trigger] reads[q]) is Some ==> held.contains_key(x.targets[q])
            && held[x.targets[q]] == reads[q]->0
    &&& x.responsive ==> forall|q: int|
        0 <= q < reads.len() && held.contains_key(x.targets[q]) ==> (#[trigger] reads[q]) is Some
}

/// The pieces of these shards are in their slots.
spec fn slots_hold(
    x: Coded,
    slots: Seq<Option<Seq<u8>>>,
    held: Map<ShardId, Seq<u8>>,
    v: Seq<ShardId>,
    to: int,
) -> bool {
    x.responsive ==> forall|j: int|
        0 <= j < x.k + x.m && #[trigger] x.held_by(held, v, to, j) ==> slots[j] is Some
}

/// What holds at every moment of a repair of an erasure-coded object.
spec fn coded_safe(x: Coded, first: Map<ShardId, Seq<u8>>, a: RepairMoment) -> bool {
    let v = a.state;
    let src = x.in_reach(first);
    let known = v.k == x.k && v.m == x.m;
    &&& v.total == x.total && v.targets == x.targets && v.n == x.n
    &&& v.legs == repair::least(x.replicas, x.targets.len())
    &&& x.cut(a.held)
    &&& match v.phase {
        RepairPhase::Held(i) => {
            &&& i < repair::least(v.total, v.targets.len())
            &&& a.action == repair::RepairActionView::AskHas(v.targets[i as int])
            &&& v.held == x.flags(first).take(i as int)
            &&& a.held == first
        },
        RepairPhase::Probe(i) => {
            &&& v.order == x.targets + x.rest()
            &&& i < v.order.len() <= 0x2_0000
            &&& a.action == repair::RepairActionView::AskBody(v.order[i as int])
            &&& a.held == first
            &&& src ==> exists|y: int|
                i <= y < v.order.len() && first.contains_key(#[trigger] v.order[y])
        },
        RepairPhase::Gather(r) => {
            &&& known
            &&& r < x.width()
            &&& a.action == repair::RepairActionView::AskBody(v.targets[r as int])
            &&& v.reads.len() == r
            &&& reads_hold(x, v.reads, a.held)
            &&& a.held == first
        },
        RepairPhase::Strays(i) => {
            &&& known
            &&& v.order == x.rest()
            &&& i < v.order.len() <= 0x2_0000
            &&& a.action == repair::RepairActionView::AskBody(v.order[i as int])
            &&& a.held == first
            &&& erasure::slots_from(v.slots, x.pieces())
            &&& ranks_known(x, v.ranks, a.held)
            &&& slots_hold(x, v.slots, first, x.targets, x.width() as int)
            &&& slots_hold(x, v.slots, first, x.rest(), i as int)
        },
        RepairPhase::WritePiece(j) => {
            &&& j < v.plan.len()
            &&& v.plan == ec_pool::pieces_for(v.ranks, x.pieces())
            &&& a.action == repair::RepairActionView::PutPiece(
                x.targets[v.ranks[j as int] as int],
                x.pieces()[v.ranks[j as int] as int],
                v.object,
            )
            &&& ranks_known(x, v.ranks, a.held)
            &&& v.done.len() == j
            &&& forall|q: int|
                0 <= q < j && #[trigger] v.done[q] ==> x.in_place(a.held, v.ranks[q] as int)
            &&& x.responsive ==> forall|q: int| 0 <= q < j ==> #[trigger] v.done[q]
        },
        RepairPhase::Done => {
            &&& a.action is Finish
            &&& is_complete(a.action) ==> x.whole(a.held)
            &&& src ==> is_complete(a.action)
        },
        _ => false,
    }
}

proof fn lemma_read_bodies(reads: Seq<Option<Seq<u8>>>)
    ensures
        forall|i: int|
            0 <= i < ec_pool::read_bodies(reads).len() ==> reads.contains(
                Some(#[trigger] ec_pool::read_bodies(reads)[i]),
            ),
        forall|q: int|
            0 <= q < reads.len() && (#[trigger] reads[q]) is Some ==> ec_pool::read_bodies(
                reads,
            ).contains(reads[q]->0),
    decreases reads.len(),
{
    if reads.len() > 0 {
        let p = reads.drop_last();
        lemma_read_bodies(p);
        let u = ec_pool::read_bodies(p);
        let w = ec_pool::read_bodies(reads);
        assert forall|i: int| 0 <= i < w.len() implies reads.contains(Some(#[trigger] w[i])) by {
            if i < u.len() {
                assert(w[i] == u[i]);
                let y = choose|y: int| 0 <= y < p.len() && p[y] == Some(u[i]);
                assert(reads[y] == Some(w[i]));
            } else {
                assert(reads[reads.len() - 1] == Some(w[i]));
            }
        }
        assert forall|q: int| 0 <= q < reads.len() && (#[trigger] reads[q]) is Some implies w.contains(
            reads[q]->0,
        ) by {
            if q < p.len() {
                assert(p[q] == reads[q]);
                let y = choose|y: int| 0 <= y < u.len() && u[y] == p[q]->0;
                assert(w[y] == reads[q]->0);
            } else {
                assert(w[w.len() - 1] == reads[q]->0);
            }
        }
    }
}

proof fn lemma_ranks_to_repair(reads: Seq<Option<Seq<u8>>>)
    requires
        reads.len() <= usize::MAX,
    ensures
        forall|r: int|
            0 <= r < reads.len() && !ec_pool::in_place(r, #[trigger] reads[r]) ==> exists|i: int|
                0 <= i < ec_pool::ranks_to_repair(reads).len() && (
                #[trigger] ec_pool::ranks_to_repair(reads)[i]) == r,
    decreases reads.len(),
{
    if reads.len() > 0 {
        let p = reads.drop_last();
        lemma_ranks_to_repair(p);
        let u = ec_pool::ranks_to_repair(p);
        let w = ec_pool::ranks_to_repair(reads);
        assert forall|r: int|
            0 <= r < reads.len() && !ec_pool::in_place(r, #[trigger] reads[r]) implies exists|i: int|
            0 <= i < w.len() && (#[trigger] w[i]) == r by {
            if r < p.len() {
                assert(p[r] == reads[r]);
                let i = choose|i: int| 0 <= i < u.len() && (#[trigger] u[i]) == r;
                assert(w[i] == r);
            } else {
                assert(w[w.len() - 1] == r);
            }
        }
    }
}

/// Which piece a body is.
proof fn lemma_piece_of(x: Coded, body: Seq<u8>) -> (j: int)
    requires
        x.wf(),
        x.pieces().contains(body),
    ensures
        0 <= j < x.k + x.m,
        body == x.pieces()[j],
        piece::parsed_piece(body) == Some(erasure::piece_header(x.data.len(), x.k, x.m, j)),
        erasure::piece_header(x.data.len(), x.k, x.m, j).piece_idx == j,
        erasure::piece_header(x.data.len(), x.k, x.m, j).k == x.k,
        erasure::piece_header(x.data.len(), x.k, x.m, j).m == x.m,
{
    let j = choose|j: int| 0 <= j < x.pieces().len() && x.pieces()[j] == body;
    erasure::lemma_piece_reads_back(x.data, x.k, x.m, j);
    j
}

/// Some shard can be asked when enough pieces are there.
proof fn lemma_source(x: Coded, held: Map<ShardId, Seq<u8>>)
    requires
        x.wf(),
        x.in_reach(held),
    ensures
        exists|y: int|
            0 <= y < (x.targets + x.rest()).len() && held.contains_key(
                #[trigger] (x.targets + x.rest())[y],
            ),
{
    let w = x.within_reach(held);
    let all = x.targets + x.rest();
    if forall|j: int| 0 <= j < w.len() ==> (#[trigger] w[j]) is None {
        ec_pool::lemma_none_present(w);
        assert(false);
    }
    let j = choose|j: int| 0 <= j < w.len() && (#[trigger] w[j]) is Some;
    if x.held_by(held, x.targets, x.width() as int, j) {
        let y = choose|y: int|
            0 <= y < x.width() && y < x.targets.len() && held.contains_key(
                #[trigger] x.targets[y],
            ) && held[x.targets[y]] == x.pieces()[j];
        assert(held.contains_key(all[y]));
    } else {
        let y = choose|y: int|
            0 <= y < x.rest().len() && y < x.rest().len() && held.contains_key(
                #[trigger] x.rest()[y],
            ) && held[x.rest()[y]] == x.pieces()[j];
        assert(held.contains_key(all[x.targets.len() + y]));
    }
}

/// Going on with the pieces that are to be written.
proof fn lemma_write_on(
    x: Coded,
    first: Map<ShardId, Seq<u8>>,
    v: repair::RepairView,
    j: int,
    b: RepairMoment,
)
    requires
        x.wf(),
        v.total == x.total && v.targets == x.targets && v.n == x.n,
        v.legs == repair::least(x.replicas, x.targets.len()),
        x.cut(b.held),
        0 <= j <= v.plan.len(),
        v.plan == ec_pool::pieces_for(v.ranks, x.pieces()),
        ranks_known(x, v.ranks, b.held),
        v.done.len() == j,
        forall|q: int| 0 <= q < j && #[trigger] v.done[q] ==> x.in_place(b.held, v.ranks[q] as int),
        x.responsive ==> forall|q: int| 0 <= q < j ==> #[trigger] v.done[q],
        (b.state, b.action) == v.write_from(j),
    ensures
        coded_safe(x, first, b),
{
    if j < v.plan.len() {
        assert(v.plan[j] == (v.ranks[j], x.pieces()[v.ranks[j] as int]));
    } else {
        lemma_outcome(v.done);
        if is_complete(b.action) {
            assert forall|r: int| 0 <= r < x.width() implies #[trigger] x.in_place(b.held, r) by {
                if !x.in_place(b.held, r) {
                    let i = choose|i: int| 0 <= i < v.ranks.len() && (#[trigger] v.ranks[i]) == r;
                    assert(v.done[i]);
                    assert(x.in_place(b.held, v.ranks[i] as int));
                }
            }
        }
    }
}

/// Making the plan.
proof fn lemma_plan_on(
    x: Coded,
    first: Map<ShardId, Seq<u8>>,
    v: repair::RepairView,
    b: RepairMoment,
)
    requires
        x.wf(),
        v.total == x.total && v.targets == x.targets && v.n == x.n,
        v.legs == repair::least(x.replicas, x.targets.len()),
        v.k == x.k && v.m == x.m,
        x.cut(b.held),
        erasure::slots_from(v.slots, x.pieces()),
        ranks_known(x, v.ranks, b.held),
        x.in_reach(first) ==> erasure::present(v.slots) >= x.k,
        erasure::present(v.slots) >= x.k ==> repair::rebuilds(
            b.state,
            b.action,
            v.slots,
            x.k,
            x.m,
        ),
        (b.state, b.action) == v.plan_from(),
    ensures
        coded_safe(x, first, b),
{
    if erasure::present(v.slots) >= x.k {
        assert(erasure::recoverable(v.slots, x.data, x.k, x.m));
        if let Ok(p) = repair::planned(v.slots, v.ranks, v.k, v.m) {
            if p.len() == 0 {
                assert(v.ranks.len() == 0);
                assert forall|r: int| 0 <= r < x.width() implies #[trigger] x.in_place(b.held, r) by {
                    if !x.in_place(b.held, r) {
                        let i = choose|i: int|
                            0 <= i < v.ranks.len() && (#[trigger] v.ranks[i]) == r;
                        assert(false);
                    }
                }
            } else {
                let w = repair::RepairView {
                    slots: Seq::empty(),
                    plan: p,
                    unit: p[0].1.len(),
                    base: v.k,
                    done: Seq::empty(),
                    ..v
                };
                assert((b.state, b.action) == w.write_from(0));
                assert(b.state.phase is WritePiece);
                assert(p == ec_pool::pieces_for(v.ranks, x.pieces()));
                lemma_write_on(x, first, w, 0, b);
            }
        }
    }
}

/// Going on with the search for strays.
proof fn lemma_strays_on(
    x: Coded,
    first: Map<ShardId, Seq<u8>>,
    v: repair::RepairView,
    i: int,
    b: RepairMoment,
)
    requires
        x.wf(),
        v.total == x.total && v.targets == x.targets && v.n == x.n,
        v.legs == repair::least(x.replicas, x.targets.len()),
        v.k == x.k && v.m == x.m,
        v.order == x.rest(),
        x.cut(b.held),
        b.held == first,
        0 <= i <= v.order.len(),
        erasure::slots_from(v.slots, x.pieces()),
        ranks_known(x, v.ranks, b.held),
        slots_hold(x, v.slots, first, x.targets, x.width() as int),
        slots_hold(x, v.slots, first, x.rest(), i),
        i == v.order.len() && erasure::present(v.slots) >= x.k ==> repair::rebuilds(
            b.state,
            b.action,
            v.slots,
            x.k,
            x.m,
        ),
        (b.state, b.action) == v.strays_from(i),
    ensures
        coded_safe(x, first, b),
{
    pool::lemma_others_bound(x.targets, x.n);
    if i == v.order.len() {
        if x.in_reach(first) {
            let w = x.within_reach(first);
            assert forall|j: int| 0 <= j < w.len() && (#[trigger] w[j]) is Some implies v.slots[j]
                is Some by {
                if x.held_by(first, x.targets, x.width() as int, j) {
                } else {
                    assert(x.held_by(first, x.rest(), x.rest().len() as int, j));
                }
            }
            ec_pool::lemma_more_present(w, v.slots);
        }
        lemma_plan_on(x, first, v, b);
    }
}

/// Taking stock of what the shards of the ranks gave.
proof fn lemma_survey(x: Coded, v: repair::RepairView, held: Map<ShardId, Seq<u8>>)
    requires
        x.wf(),
        x.cut(held),
        v.k == x.k && v.m == x.m,
        v.reads.len() == x.width(),
        reads_hold(x, v.reads, held),
    ensures
        erasure::slots_from(v.surveyed(), x.pieces()),
        ranks_known(x, ec_pool::ranks_to_repair(v.reads), held),
        slots_hold(x, v.surveyed(), held, x.targets, x.width() as int),
{
    let bodies = ec_pool::read_bodies(v.reads);
    let free = ec_pool::free_slots(x.k + x.m);
    let p = ec_pool::Spread { data: x.data, k: x.k, m: x.m, held: Map::empty() };
    lemma_read_bodies(v.reads);
    assert(erasure::slots_from(free, x.pieces()));
    assert forall|i: int| 0 <= i < bodies.len() implies exists|j: int|
        0 <= j < p.k + p.m && #[trigger] bodies[i] == #[trigger] x.pieces()[j] by {
        assert(v.reads.contains(Some(bodies[i])));
        let q = choose|q: int| 0 <= q < v.reads.len() && v.reads[q] == Some(bodies[i]);
        assert(v.reads[q] is Some);
        assert(held[x.targets[q]] == bodies[i]);
        let j = lemma_piece_of(x, bodies[i]);
        assert(bodies[i] == x.pieces()[j]);
    }
    ec_pool::lemma_filled_all(p, free, bodies);
    if x.responsive {
        assert forall|j: int|
            0 <= j < x.k + x.m && #[trigger] x.held_by(
                held,
                x.targets,
                x.width() as int,
                j,
            ) implies v.surveyed()[j] is Some by {
            let y = choose|y: int|
                0 <= y < x.width() && y < x.targets.len() && held.contains_key(
                    #[trigger] x.targets[y],
                ) && held[x.targets[y]] == x.pieces()[j];
            assert(v.reads[y] is Some);
            let i = choose|i: int| 0 <= i < bodies.len() && bodies[i] == v.reads[y]->0;
            assert(bodies[i] == x.pieces()[j]);
        }
    }
    let ranks = ec_pool::ranks_to_repair(v.reads);
    lemma_ranks_len(v.reads);
    lemma_ranks_to_repair(v.reads);
    repair::lemma_ranks_below(v.reads);
    assert forall|r: int| 0 <= r < x.width() implies (#[trigger] x.in_place(held, r)) || exists|i: int|
        0 <= i < ranks.len() && (#[trigger] ranks[i]) == r by {
        if ec_pool::in_place(r, v.reads[r]) {
            let body = v.reads[r]->0;
            assert(held[x.targets[r]] == body);
            let j = lemma_piece_of(x, body);
            assert(j == r);
        }
    }
}

/// Going on with the pieces at the ranks.
proof fn lemma_gather_on(
    x: Coded,
    first: Map<ShardId, Seq<u8>>,
    v: repair::RepairView,
    r: int,
    b: RepairMoment,
)
    requires
        x.wf(),
        v.total == x.total && v.targets == x.targets && v.n == x.n,
        v.legs == repair::least(x.replicas, x.targets.len()),
        v.k == x.k && v.m == x.m,
        x.cut(b.held),
        b.held == first,
        0 <= r <= x.width(),
        v.reads.len() == r,
        reads_hold(x, v.reads, b.held),
        r == x.width() && erasure::present(v.surveyed()) >= x.k ==> repair::rebuilds(
            b.state,
            b.action,
            v.surveyed(),
            x.k,
            x.m,
        ),
        (b.state, b.action) == v.gather_from(r),
    ensures
        coded_safe(x, first, b),
{
    if r == x.width() {
        lemma_survey(x, v, first);
        let w = repair::RepairView {
            slots: v.surveyed(),
            ranks: ec_pool::ranks_to_repair(v.reads),
            reads: Seq::empty(),
            ..v
        };
        if erasure::present(w.slots) < w.k {
            let u = repair::RepairView { order: x.rest(), ..w };
            assert(slots_hold(x, u.slots, first, x.rest(), 0)) by {
                assert forall|j: int| !(#[trigger] x.held_by(first, x.rest(), 0, j)) by {}
            }
            lemma_strays_on(x, first, u, 0, b);
        } else {
            lemma_plan_on(x, first, w, b);
        }
    }
}

proof fn lemma_ranks_len(reads: Seq<Option<Seq<u8>>>)
    ensures
        ec_pool::ranks_to_repair(reads).len() <= reads.len(),
    decreases reads.len(),
{
    if reads.len() > 0 {
        lemma_ranks_len(reads.drop_last());
    }
}

/// Going on with the question who holds the key.
proof fn lemma_flags_on(
    x: Coded,
    first: Map<ShardId, Seq<u8>>,
    v: repair::RepairView,
    i: int,
    b: RepairMoment,
)
    requires
        x.wf(),
        x.telling(first),
        v.total == x.total && v.targets == x.targets && v.n == x.n,
        v.legs == repair::least(x.replicas, x.targets.len()),
        x.cut(b.held),
        b.held == first,
        0 <= i <= repair::least(v.total, v.targets.len()),
        v.held == x.flags(first).take(i),
        (b.state, b.action) == v.held_from(i),
    ensures
        coded_safe(x, first, b),
{
    if i == repair::least(v.total, v.targets.len()) {
        assert(v.held =~= x.flags(first));
        pool::lemma_others_bound(x.targets, x.n);
        if !ec_pool::looks_healthy(v.held, v.total, v.legs) && x.in_reach(first) {
            lemma_source(x, first);
            let all = x.targets + x.rest();
            let y = choose|y: int| 0 <= y < all.len() && first.contains_key(#[trigger] all[y]);
            assert(first.contains_key(b.state.order[y]));
        }
    }
}

proof fn lemma_coded_step(
    x: Coded,
    first: Map<ShardId, Seq<u8>>,
    a: RepairMoment,
    b: RepairMoment,
)
    requires
        x.wf(),
        x.telling(first),
        coded_safe(x, first, a),
        coded_follows(x.responsive, a, b),
    ensures
        coded_safe(x, first, b),
{
    let ev = choose|ev: repair::RepairEventView| #[trigger]
        carried_out(x.responsive, a.held, a.action, ev, b.held) && (b.state, b.action)
            == a.state.step(ev) && a.state.rebuilt(ev, b.state, b.action) && truly_answered(a, ev);
    let v = a.state;
    match v.phase {
        RepairPhase::Held(i) => {
            let s = v.targets[i as int];
            assert(a.action->AskHas_0 == s);
            let w = repair::RepairView { held: v.held.push(first.contains_key(s)), ..v };
            assert(w.held =~= x.flags(first).take(i + 1));
            lemma_flags_on(x, first, w, i + 1, b);
        },
        RepairPhase::Probe(i) => {
            let reply = ev->Body_0;
            assert(a.action->AskBody_0 == v.order[i as int]);
            if let Some(y) = reply {
                let j = lemma_piece_of(x, y);
                let h = erasure::piece_header(x.data.len(), x.k, x.m, j);
                let w = repair::RepairView {
                    k: h.k as nat,
                    m: h.m as nat,
                    object: h.logical_len,
                    reads: Seq::empty(),
                    ..v
                };
                assert((b.state, b.action) == w.gather_from(0));
                if x.width() == 0 {
                    assert(w.surveyed() =~= ec_pool::free_slots(x.k + x.m));
                    ec_pool::lemma_none_present(w.surveyed());
                }
                lemma_gather_on(x, first, w, 0, b);
            } else if x.in_reach(first) {
                let y = choose|y: int|
                    i <= y < v.order.len() && first.contains_key(#[trigger] v.order[y]);
                assert(y != i);
                assert(first.contains_key(b.state.order[y]));
            }
        },
        RepairPhase::Gather(r) => {
            let reply = ev->Body_0;
            assert(a.action->AskBody_0 == v.targets[r as int]);
            let w = repair::RepairView { reads: v.reads.push(reply), ..v };
            assert(reads_hold(x, w.reads, b.held)) by {
                assert forall|q: int| 0 <= q < w.reads.len() && (#[trigger] w.reads[q]) is Some implies b.held.contains_key(
                    x.targets[q],
                ) && b.held[x.targets[q]] == w.reads[q]->0 by {
                    if q < r {
                        assert(v.reads[q] is Some);
                    }
                }
                if x.responsive {
                    assert forall|q: int|
                        0 <= q < w.reads.len() && b.held.contains_key(x.targets[q]) implies (
                    #[trigger] w.reads[q]) is Some by {
                        if q < r {
                            assert(v.reads[q] is Some);
                        }
                    }
                }
            }
            lemma_gather_on(x, first, w, r + 1, b);
        },
        RepairPhase::Strays(i) => {
            let reply = ev->Body_0;
            let s = v.order[i as int];
            assert(a.action->AskBody_0 == s);
            let slots = match reply {
                Some(y) => ec_pool::filled(v.slots, y),
                None => v.slots,
            };
            let w = repair::RepairView { slots, ..v };
            if let Some(y) = reply {
                let j = lemma_piece_of(x, y);
                ec_pool::fill_keeps_pieces(v.slots, x.data, x.k, x.m, j);
                assert forall|q: int| 0 <= q < x.k + x.m && v.slots[q] is Some implies (
                #[trigger] slots[q]) is Some by {}
            }
            assert(slots_hold(x, slots, first, x.targets, x.width() as int));
            assert(slots_hold(x, slots, first, x.rest(), i + 1)) by {
                if x.responsive {
                    assert forall|j: int|
                        0 <= j < x.k + x.m && #[trigger] x.held_by(
                            first,
                            x.rest(),
                            i + 1,
                            j,
                        ) implies slots[j] is Some by {
                        let y = choose|y: int|
                            0 <= y < i + 1 && y < x.rest().len() && first.contains_key(
                                #[trigger] x.rest()[y],
                            ) && first[x.rest()[y]] == x.pieces()[j];
                        if y < i {
                            assert(x.held_by(first, x.rest(), i as int, j));
                        } else {
                            let body = reply->0;
                            let q = lemma_piece_of(x, body);
                            erasure::lemma_piece_reads_back(x.data, x.k, x.m, j);
                            erasure::lemma_piece_reads_back(x.data, x.k, x.m, q);
                            assert(q == j);
                            ec_pool::fill_keeps_pieces(v.slots, x.data, x.k, x.m, j);
                        }
                    }
                }
            }
            lemma_strays_on(x, first, w, i + 1, b);
        },
        RepairPhase::WritePiece(j) => {
            let ok = ev->Put_0;
            let r = v.ranks[j as int] as int;
            assert(a.action->PutPiece_0 == x.targets[r] && a.action->PutPiece_1 == x.pieces()[r]);
            let w = repair::RepairView { done: v.done.push(ok), ..v };
            assert(x.cut(b.held)) by {
                assert forall|s: ShardId| #[trigger] b.held.contains_key(s) implies x.pieces().contains(
                    b.held[s],
                ) by {
                    if s == x.targets[r] && b.held[s] == x.pieces()[r] {
                        assert(x.pieces().contains(x.pieces()[r]));
                    }
                }
            }
            assert forall|q: int| 0 <= q < x.width() && #[trigger] x.in_place(
                a.held,
                q,
            ) implies x.in_place(b.held, q) by {
                if q < r {
                    assert(x.targets[q] != x.targets[r]);
                } else if q > r {
                    assert(x.targets[r] != x.targets[q]);
                }
            }
            assert(ranks_known(x, w.ranks, b.held)) by {
                assert forall|q: int| 0 <= q < x.width() implies (#[trigger] x.in_place(b.held, q))
                    || exists|i: int| 0 <= i < w.ranks.len() && (#[trigger] w.ranks[i]) == q by {
                    if x.in_place(a.held, q) {
                        assert(x.in_place(b.held, q));
                    }
                }
            }
            assert forall|q: int| 0 <= q < j + 1 && #[trigger] w.done[q] implies x.in_place(
                b.held,
                w.ranks[q] as int,
            ) by {
                if q < j {
                    assert(v.done[q]);
                    assert(x.in_place(a.held, v.ranks[q] as int));
                }
            }
            lemma_write_on(x, first, w, j + 1, b);
        },
        _ => {},
    }
}

proof fn lemma_coded_repair(x: Coded, run: Seq<RepairMoment>, i: int)
    requires
        x.wf(),
        x.cut(run[0].held),
        x.telling(run[0].held),
        is_coded_repair(x, run),
        0 <= i < run.len(),
    ensures
        coded_safe(x, run[0].held, run[i]),
    decreases i,
{
    let first = run[0].held;
    if i > 0 {
        lemma_coded_repair(x, run, i - 1);
        assert(coded_follows(x.responsive, run[i - 1], run[i]));
        lemma_coded_step(x, first, run[i - 1], run[i]);
    } else {
        let v = repair::RepairView {
            total: x.total,
            legs: repair::least(x.replicas, x.targets.len()),
            targets: x.targets,
            desired: x.desired,
            n: x.n,
            phase: RepairPhase::Done,
            order: Seq::empty(),
            held: Seq::empty(),
            reads: Seq::empty(),
            slots: Seq::empty(),
            ranks: Seq::empty(),
            k: 0,
            m: 0,
            object: 0,
            plan: Seq::empty(),
            body: None,
            missing: Seq::empty(),
            done: Seq::empty(),
            unit: 0,
            base: 0,
        };
        assert(v.held =~= x.flags(first).take(0));
        lemma_flags_on(x, first, v, 0, run[0]);
    }
}

/// A repair of an erasure-coded object that reports nothing left to do leaves the piece of
/// its rank on every target, rebuilt where it was lost.  It does report that when every
/// shard answers and enough pieces are within reach, whichever they are.
pub proof fn repaired_pieces_are_whole(x: Coded, run: Seq<RepairMoment>, i: int)
    requires
        x.wf(),
        x.cut(run[0].held),
        x.telling(run[0].held),
        is_coded_repair(x, run),
        0 <= i < run.len(),
    ensures
        is_complete(run[i].action) ==> x.whole(run[i].held),
        run[i].action is Finish && x.in_reach(run[0].held) ==> is_complete(run[i].action),
        x.cut(run[i].held),
{
    lemma_coded_repair(x, run, i);
}

} // verus!
