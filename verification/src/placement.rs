//! Placement of keys on shards by rendezvous hashing.
//!
//! Every shard gets a score for a key; the best shards hold the key.  A score
//! depends on the key and the shard alone, so that a new shard takes over its
//! share of the keys and moves no others.
use vstd::prelude::*;
use crate::domain::{Capacity, ShardId, ShardStatus};

verus! {

/// The 64-bit XXH3 hash of a byte sequence under a seed.
pub uninterp spec fn xxh3(data: Seq<u8>, seed: u64) -> u64;

/// `xxhash_rust::xxh3::xxh3_64_with_seed`.
#[verifier::external_body]
fn xxh3_64(data: &[u8], seed: u64) -> (r: u64)
    ensures
        r == xxh3(data@, seed),
{
    xxhash_rust::xxh3::xxh3_64_with_seed(data, seed)
}

/// The hash a shard's score for a key is made of.
pub fn placement_hash(key: &[u8], shard: ShardId) -> (r: u64)
    ensures
        r == xxh3(key@, (shard.0 + 1) as u64),
{
    xxh3_64(key, shard.0 as u64 + 1)
}

/// A shard as placement sees it for one key.
#[derive(Clone, Copy, Debug, PartialEq, Eq, Structural)]
pub struct Candidate {
    pub id: ShardId,
    pub status: ShardStatus,
    /// filled beyond the blocking threshold
    pub full: bool,
    /// larger is better
    pub score: i64,
}

impl Candidate {
    /// A shard that may hold the key.
    pub open spec fn usable(self) -> bool {
        !(self.status is Faulted) && !self.full
    }
}

/// A ranking with one more candidate: behind all that score at least as well.
pub open spec fn ranked_in(v: Seq<Candidate>, x: Candidate) -> Seq<Candidate>
    decreases v.len(),
{
    if v.len() == 0 || v.last().score >= x.score {
        v.push(x)
    } else {
        ranked_in(v.drop_last(), x).push(v.last())
    }
}

/// The usable candidates, best first; equal scores keep their order.
pub open spec fn ranking(c: Seq<Candidate>) -> Seq<Candidate>
    decreases c.len(),
{
    if c.len() == 0 {
        Seq::empty()
    } else if c.last().usable() {
        ranked_in(ranking(c.drop_last()), c.last())
    } else {
        ranking(c.drop_last())
    }
}

/// The numbers of the first `n` candidates.
pub open spec fn first_ids(v: Seq<Candidate>, n: nat) -> Seq<ShardId> {
    Seq::new(
        if v.len() <= n {
            v.len()
        } else {
            n
        },
        |i: int| v[i].id,
    )
}

proof fn lemma_ranked_in_is_insert(v: Seq<Candidate>, x: Candidate, n: int)
    requires
        0 <= n <= v.len(),
        n > 0 ==> v[n - 1].score >= x.score,
        forall|j: int| n <= j < v.len() ==> (#[trigger] v[j]).score < x.score,
    ensures
        ranked_in(v, x) == v.insert(n, x),
    decreases v.len(),
{
    if v.len() == 0 || v.last().score >= x.score {
        if n < v.len() {
            assert(v[v.len() - 1].score < x.score);
        }
        assert(v.insert(n, x) =~= v.push(x));
    } else {
        let p = v.drop_last();
        assert(n < v.len()) by {
            if n == v.len() {
                assert(v[n - 1] == v.last());
            }
        }
        assert forall|j: int| n <= j < p.len() implies (#[trigger] p[j]).score < x.score by {
            assert(p[j] == v[j]);
        }
        lemma_ranked_in_is_insert(p, x, n);
        assert(v.insert(n, x) =~= p.insert(n, x).push(v.last()));
    }
}

/// Chooses the `rf` best shards for a key.
pub fn select(candidates: &Vec<Candidate>, rf: usize) -> (r: Vec<ShardId>)
    ensures
        r@ == first_ids(ranking(candidates@), rf as nat),
{
    let mut v: Vec<Candidate> = Vec::new();
    let mut i: usize = 0;
    while i < candidates.len()
        invariant
            i <= candidates@.len(),
            v@ == ranking(candidates@.take(i as int)),
        decreases candidates@.len() - i,
    {
        let x = candidates[i];
        assert(candidates@.take(i + 1).drop_last() =~= candidates@.take(i as int));
        assert(candidates@.take(i + 1).last() == x);
        let faulted = match x.status {
            ShardStatus::Faulted => true,
            _ => false,
        };
        if !faulted && !x.full {
            let mut n: usize = v.len();
            while n > 0 && v[n - 1].score < x.score
                invariant
                    n <= v@.len(),
                    forall|j: int| n <= j < v@.len() ==> (#[trigger] v@[j]).score < x.score,
                decreases n,
            {
                n = n - 1;
            }
            proof {
                lemma_ranked_in_is_insert(v@, x, n as int);
            }
            v.insert(n, x);
        }
        i = i + 1;
    }
    assert(candidates@.take(candidates@.len() as int) =~= candidates@);
    let mut out: Vec<ShardId> = Vec::new();
    let mut k: usize = 0;
    while k < v.len() && k < rf
        invariant
            k <= v@.len(),
            k <= rf,
            v@ == ranking(candidates@),
            out@.len() == k,
            forall|j: int| 0 <= j < k ==> out@[j] == (#[trigger] v@[j]).id,
        decreases v@.len() - k,
    {
        out.push(v[k].id);
        k = k + 1;
    }
    assert(out@ =~= first_ids(ranking(candidates@), rf as nat));
    out
}

/// The best `a` shards come first among the best `b`: replicas of a mirrored
/// object sit where the first pieces of an erasure-coded one would.
pub proof fn fewer_is_a_prefix(c: Seq<Candidate>, a: nat, b: nat)
    requires
        a <= b,
    ensures
        ({
            let small = first_ids(ranking(c), a);
            let large = first_ids(ranking(c), b);
            small.len() <= large.len() && large.take(small.len() as int) == small
        }),
{
    let small = first_ids(ranking(c), a);
    let large = first_ids(ranking(c), b);
    assert(large.take(small.len() as int) =~= small);
}

/// Every ranked shard is one of the candidates, usable, and ranked once.
pub proof fn ranked_are_usable(c: Seq<Candidate>)
    ensures
        forall|i: int|
            0 <= i < ranking(c).len() ==> (#[trigger] ranking(c)[i]).usable() && c.contains(
                ranking(c)[i],
            ),
        forall|j: int|
            0 <= j < c.len() && (#[trigger] c[j]).usable() ==> ranking(c).contains(c[j]),
        ranking(c).len() <= c.len(),
    decreases c.len(),
{
    if c.len() > 0 {
        let p = c.drop_last();
        ranked_are_usable(p);
        assert forall|i: int| 0 <= i < ranking(p).len() implies c.contains(
            #[trigger] ranking(p)[i],
        ) by {
            let x = ranking(p)[i];
            let j = choose|j: int| 0 <= j < p.len() && p[j] == x;
            assert(c[j] == x);
        }
        if c.last().usable() {
            lemma_ranked_in_members(ranking(p), c.last());
            assert(c[c.len() - 1] == c.last());
            assert forall|i: int| 0 <= i < ranking(c).len() implies (
            #[trigger] ranking(c)[i]).usable() && c.contains(ranking(c)[i]) by {
                let x = ranking(c)[i];
                assert(ranking(c).contains(x));
                if x != c.last() {
                    let j = choose|j: int| 0 <= j < ranking(p).len() && ranking(p)[j] == x;
                    assert(ranking(p)[j].usable());
                }
            }
        }
        assert forall|j: int| 0 <= j < c.len() && (#[trigger] c[j]).usable() implies ranking(
            c,
        ).contains(c[j]) by {
            if j < c.len() - 1 {
                assert(p[j] == c[j]);
                assert(ranking(p).contains(p[j]));
            }
        }
    }
}

proof fn lemma_ranked_in_members(v: Seq<Candidate>, x: Candidate)
    ensures
        forall|y: Candidate| #[trigger] ranked_in(v, x).contains(y) <==> v.contains(y) || y == x,
        ranked_in(v, x).len() == v.len() + 1,
    decreases v.len(),
{
    let w = ranked_in(v, x);
    if v.len() == 0 || v.last().score >= x.score {
        assert forall|y: Candidate| #[trigger] w.contains(y) <==> v.contains(y) || y == x by {
            if v.contains(y) {
                let j = choose|j: int| 0 <= j < v.len() && v[j] == y;
                assert(w[j] == y);
            }
            if y == x {
                assert(w[v.len() as int] == y);
            }
        }
    } else {
        let p = v.drop_last();
        lemma_ranked_in_members(p, x);
        let t = ranked_in(p, x);
        assert forall|y: Candidate| #[trigger] w.contains(y) <==> v.contains(y) || y == x by {
            if w.contains(y) {
                let j = choose|j: int| 0 <= j < w.len() && w[j] == y;
                if j < t.len() {
                    assert(t[j] == y);
                    assert(t.contains(y));
                    if y != x {
                        let i = choose|i: int| 0 <= i < p.len() && p[i] == y;
                        assert(v[i] == y);
                    }
                } else {
                    assert(v[v.len() - 1] == y);
                }
            }
            if v.contains(y) {
                let j = choose|j: int| 0 <= j < v.len() && v[j] == y;
                if j < v.len() - 1 {
                    assert(p[j] == y);
                    assert(t.contains(y));
                    let i = choose|i: int| 0 <= i < t.len() && t[i] == y;
                    assert(w[i] == y);
                } else {
                    assert(w[t.len() as int] == y);
                }
            }
            if y == x {
                assert(t.contains(x));
                let i = choose|i: int| 0 <= i < t.len() && t[i] == x;
                assert(w[i] == x);
            }
        }
    }
}

/// No two candidates have the same number.
pub open spec fn ids_differ(c: Seq<Candidate>) -> bool {
    forall|i: int, j: int| 0 <= i < j < c.len() ==> (#[trigger] c[i]).id != (#[trigger] c[j]).id
}

/// The chosen shards differ from one another.
pub proof fn chosen_shards_differ(c: Seq<Candidate>)
    requires
        ids_differ(c),
    ensures
        ids_differ(ranking(c)),
    decreases c.len(),
{
    if c.len() > 0 {
        let p = c.drop_last();
        assert(ids_differ(p)) by {
            assert forall|i: int, j: int| 0 <= i < j < p.len() implies (#[trigger] p[i]).id != (
            #[trigger] p[j]).id by {
                assert(p[i] == c[i] && p[j] == c[j]);
            }
        }
        chosen_shards_differ(p);
        if c.last().usable() {
            let x = c.last();
            let v = ranking(p);
            lemma_ranked_in_somewhere(v, x);
            let n = choose|n: int| 0 <= n <= v.len() && ranked_in(v, x) == #[trigger] v.insert(
                n,
                x,
            );
            let w = v.insert(n, x);
            ranked_are_usable(p);
            assert forall|i: int| 0 <= i < v.len() implies (#[trigger] v[i]).id != x.id by {
                let j = choose|j: int| 0 <= j < p.len() && p[j] == v[i];
                assert(c[j] == v[i]);
                assert(c[c.len() - 1] == x);
            }
            assert forall|i: int, j: int| 0 <= i < j < w.len() implies (#[trigger] w[i]).id != (
            #[trigger] w[j]).id by {
                let a = if i < n {
                    i
                } else {
                    i - 1
                };
                let b = if j < n {
                    j
                } else {
                    j - 1
                };
                if i != n {
                    assert(w[i] == v[a]);
                }
                if j != n {
                    assert(w[j] == v[b]);
                }
            }
        }
    }
}

/// A new shard moves no key between old ones: the ranking with it is the old
/// ranking with one place inserted.
pub proof fn new_shard_only_takes(c: Seq<Candidate>, x: Candidate)
    ensures
        !x.usable() ==> ranking(c.push(x)) == ranking(c),
        x.usable() ==> exists|n: int|
            0 <= n <= ranking(c).len() && ranking(c.push(x)) == #[trigger] ranking(c).insert(n, x),
{
    assert(c.push(x).drop_last() =~= c);
    if x.usable() {
        lemma_ranked_in_somewhere(ranking(c), x);
    }
}

proof fn lemma_ranked_in_somewhere(v: Seq<Candidate>, x: Candidate)
    ensures
        exists|n: int| 0 <= n <= v.len() && ranked_in(v, x) == #[trigger] v.insert(n, x),
    decreases v.len(),
{
    if v.len() == 0 || v.last().score >= x.score {
        assert(v.insert(v.len() as int, x) =~= v.push(x));
    } else {
        let p = v.drop_last();
        lemma_ranked_in_somewhere(p, x);
        let n = choose|n: int| 0 <= n <= p.len() && ranked_in(p, x) == #[trigger] p.insert(n, x);
        assert(v.insert(n, x) =~= p.insert(n, x).push(v.last()));
    }
}

/// The shards of a pool: number, capacity and status each.  A slow shard counts
/// as suspect unless it is worse already.
pub fn topology(
    statuses: &Vec<ShardStatus>,
    slow: &Vec<bool>,
    overrides: &Vec<Option<Capacity>>,
    usage: &Vec<Option<Capacity>>,
) -> (r: Vec<(ShardId, Capacity, ShardStatus)>)
    requires
        statuses@.len() == slow@.len() == overrides@.len() == usage@.len(),
        statuses@.len() <= u16::MAX,
    ensures
        r@.len() == statuses@.len(),
        forall|i: int|
            0 <= i < r@.len() ==> {
                &&& (#[trigger] r@[i]).0 == ShardId(i as u16)
                &&& r@[i].1 == match (overrides@[i], usage@[i]) {
                    (Some(c), _) => c,
                    (None, Some(c)) => c,
                    (None, None) => Capacity { total_bytes: 0, free_bytes: 0 },
                }
                &&& r@[i].2 == (if statuses@[i] is Online && slow@[i] {
                    ShardStatus::Suspect
                } else {
                    statuses@[i]
                })
            },
{
    let mut out: Vec<(ShardId, Capacity, ShardStatus)> = Vec::new();
    let mut i: usize = 0;
    while i < statuses.len()
        invariant
            statuses@.len() == slow@.len() == overrides@.len() == usage@.len(),
            statuses@.len() <= u16::MAX,
            i <= statuses@.len(),
            out@.len() == i,
            forall|j: int|
                0 <= j < i ==> {
                    &&& (#[trigger] out@[j]).0 == ShardId(j as u16)
                    &&& out@[j].1 == match (overrides@[j], usage@[j]) {
                        (Some(c), _) => c,
                        (None, Some(c)) => c,
                        (None, None) => Capacity { total_bytes: 0, free_bytes: 0 },
                    }
                    &&& out@[j].2 == (if statuses@[j] is Online && slow@[j] {
                        ShardStatus::Suspect
                    } else {
                        statuses@[j]
                    })
                },
        decreases statuses@.len() - i,
    {
        let cap = match overrides[i] {
            Some(c) => c,
            None => match usage[i] {
                Some(c) => c,
                None => Capacity { total_bytes: 0, free_bytes: 0 },
            },
        };
        let st = match statuses[i] {
            ShardStatus::Online => {
                if slow[i] {
                    ShardStatus::Suspect
                } else {
                    ShardStatus::Online
                }
            },
            other => other,
        };
        out.push((ShardId(i as u16), cap, st));
        i = i + 1;
    }
    out
}

/// A ranking falls from the best score to the worst.
proof fn lemma_ranked_in_falls(v: Seq<Candidate>, x: Candidate)
    requires
        forall|i: int, j: int|
            0 <= i < j < v.len() ==> (#[trigger] v[i]).score >= (#[trigger] v[j]).score,
    ensures
        ({
            let w = ranked_in(v, x);
            forall|i: int, j: int|
                0 <= i < j < w.len() ==> (#[trigger] w[i]).score >= (#[trigger] w[j]).score
        }),
    decreases v.len(),
{
    let w = ranked_in(v, x);
    if v.len() == 0 || v.last().score >= x.score {
        assert forall|i: int, j: int| 0 <= i < j < w.len() implies (#[trigger] w[i]).score >= (
        #[trigger] w[j]).score by {
            assert(w[i] == v[i]);
            if j < v.len() {
                assert(w[j] == v[j]);
            } else if i < v.len() - 1 {
                assert(v[i].score >= v[v.len() - 1].score);
            }
        }
    } else {
        let p = v.drop_last();
        assert forall|i: int, j: int| 0 <= i < j < p.len() implies (#[trigger] p[i]).score >= (
        #[trigger] p[j]).score by {
            assert(p[i] == v[i] && p[j] == v[j]);
        }
        lemma_ranked_in_falls(p, x);
        lemma_ranked_in_members(p, x);
        let t = ranked_in(p, x);
        assert forall|i: int, j: int| 0 <= i < j < w.len() implies (#[trigger] w[i]).score >= (
        #[trigger] w[j]).score by {
            assert(w[i] == t[i]);
            if j < t.len() {
                assert(w[j] == t[j]);
            } else {
                assert(w[j] == v.last());
                assert(t.contains(t[i]));
                if t[i] != x {
                    let a = choose|a: int| 0 <= a < p.len() && p[a] == t[i];
                    assert(v[a].score >= v[v.len() - 1].score);
                }
            }
        }
    }
}

proof fn lemma_ranking_falls(c: Seq<Candidate>)
    ensures
        ({
            let w = ranking(c);
            forall|i: int, j: int|
                0 <= i < j < w.len() ==> (#[trigger] w[i]).score >= (#[trigger] w[j]).score
        }),
    decreases c.len(),
{
    if c.len() > 0 {
        lemma_ranking_falls(c.drop_last());
        if c.last().usable() {
            lemma_ranked_in_falls(ranking(c.drop_last()), c.last());
        }
    }
}

/// How many candidates may hold the key: those that are neither faulted nor full.
pub open spec fn open_shards(c: Seq<Candidate>) -> nat
    decreases c.len(),
{
    if c.len() == 0 {
        0
    } else {
        open_shards(c.drop_last()) + if c.last().status is Faulted || c.last().full {
            0nat
        } else {
            1nat
        }
    }
}

proof fn lemma_ranking_len(c: Seq<Candidate>)
    ensures
        ranking(c).len() == open_shards(c),
    decreases c.len(),
{
    if c.len() > 0 {
        lemma_ranking_len(c.drop_last());
        lemma_ranked_in_members(ranking(c.drop_last()), c.last());
    }
}

/// The chosen shards are as many as asked for, or all that are neither faulted nor full; each
/// is one of those, and none that was passed over scores better than one that was chosen.
pub proof fn the_best_shards_are_chosen(
    candidates: &Vec<Candidate>,
    rf: usize,
    r: Vec<ShardId>,
    a: int,
    b: int,
)
    requires
        call_ensures(select, (candidates, rf), r),
        ids_differ(candidates@),
        0 <= a < candidates@.len(),
        0 <= b < candidates@.len(),
    ensures
        r@.len() == if rf <= open_shards(candidates@) {
            rf as nat
        } else {
            open_shards(candidates@)
        },
        r@.contains(candidates@[a].id) ==> !(candidates@[a].status is Faulted)
            && !candidates@[a].full,
        r@.contains(candidates@[a].id) && !r@.contains(candidates@[b].id) && !(
        candidates@[b].status is Faulted) && !candidates@[b].full ==> candidates@[a].score
            >= candidates@[b].score,
        forall|i: int| 0 <= i < r@.len() ==> exists|j: int|
            0 <= j < candidates@.len() && #[trigger] candidates@[j].id == #[trigger] r@[i],
{
    let c = candidates@;
    let w = ranking(c);
    lemma_ranking_len(c);
    lemma_ranking_falls(c);
    ranked_are_usable(c);
    assert forall|i: int| 0 <= i < r@.len() implies exists|j: int|
        0 <= j < c.len() && #[trigger] c[j].id == #[trigger] r@[i] by {
        assert(w[i].usable() && c.contains(w[i]));
        let j = choose|j: int| 0 <= j < c.len() && c[j] == w[i];
        assert(c[j].id == r@[i]);
    }
    if r@.contains(c[a].id) {
        let i = choose|i: int| 0 <= i < r@.len() && r@[i] == c[a].id;
        assert(w[i].usable() && c.contains(w[i]));
        let j = choose|j: int| 0 <= j < c.len() && c[j] == w[i];
        assert(c[j].id == c[a].id);
        assert(a == j);
        if !r@.contains(c[b].id) && c[b].usable() {
            assert(w.contains(c[b]));
            let k = choose|k: int| 0 <= k < w.len() && w[k] == c[b];
            if k < r@.len() {
                assert(r@[k] == c[b].id);
            }
            assert(w[i].score >= w[k].score);
        }
    }
}

/// Placement knows each shard by its place; a measured capacity gives way to a set one, and a
/// slow shard is suspect unless it is worse.
pub proof fn shards_are_described(
    statuses: &Vec<ShardStatus>,
    slow: &Vec<bool>,
    overrides: &Vec<Option<Capacity>>,
    usage: &Vec<Option<Capacity>>,
    r: Vec<(ShardId, Capacity, ShardStatus)>,
    i: int,
)
    requires
        call_ensures(topology, (statuses, slow, overrides, usage), r),
        statuses@.len() == slow@.len() == overrides@.len() == usage@.len(),
        statuses@.len() <= u16::MAX,
        0 <= i < statuses@.len(),
    ensures
        r@.len() == statuses@.len(),
        r@[i].0.0 == i,
        overrides@[i] matches Some(c) ==> r@[i].1 == c,
        overrides@[i] is None && usage@[i] is Some ==> r@[i].1 == usage@[i]->0,
        !slow@[i] ==> r@[i].2 == statuses@[i],
        slow@[i] && statuses@[i] is Online ==> r@[i].2 is Suspect,
        slow@[i] && statuses@[i] is Faulted ==> r@[i].2 is Faulted,
{
    assert(r@[i].0 == ShardId(i as u16));
}

/// The hash of a key on a shard is XXH3 seeded with the shard's number and one.
pub proof fn shards_hash_apart(key: &[u8], shard: ShardId, r: u64)
    requires
        call_ensures(placement_hash, (key, shard), r),
    ensures
        r == xxh3(key@, (shard.0 + 1) as u64),
{
}

} // verus!
