//! Requests per second and client address: one token bucket for each address.
//!
//! A bucket holds at most a second's worth of tokens and fills linearly. Tokens are
//! counted in billionths and time in nanoseconds, so that a nanosecond brings as many
//! billionths as there are requests per second. Every 256th request sweeps out the
//! buckets that were idle for a minute.
use vstd::prelude::*;
use vstd::string::*;
use crate::text;

verus! {

/// The limit on requests.
#[derive(Clone, Copy, Debug, PartialEq, Eq, Structural)]
pub struct RateLimitConfig {
    /// requests per second and address; no limit is set up at zero
    pub max_rps: u32,
}

/// A client address: its family and its bits.
#[derive(Clone, Copy, Debug, PartialEq, Eq, Structural)]
pub struct Client {
    pub v6: bool,
    pub bits: u128,
}

/// One token, in billionths.
pub const TOKEN: u64 = 1_000_000_000;

/// The bucket of one address.
#[derive(Clone, Copy, Debug)]
pub struct Bucket {
    pub client: Client,
    pub tokens: u64,
    pub last: u64,
}

/// A bucket's tokens and the time they were counted at.
pub type Level = (nat, nat);

/// Nanoseconds from one time to another; none backwards.
pub open spec fn elapsed(from: nat, to: nat) -> nat {
    if from < to {
        (to - from) as nat
    } else {
        0
    }
}

/// The tokens of a full bucket.
pub open spec fn full(rps: nat) -> nat {
    rps * 1_000_000_000
}

/// A bucket's tokens at a later time.
pub open spec fn filled(b: Level, rps: nat, now: nat) -> nat {
    let t = b.0 + elapsed(b.1, now) * rps;
    if t < full(rps) {
        t
    } else {
        full(rps)
    }
}

/// Whether a request is admitted, and the bucket behind it.
pub open spec fn drawn(b: Level, rps: nat, now: nat) -> (bool, Level) {
    let t = filled(b, rps, now);
    if t >= 1_000_000_000 {
        (true, ((t - 1_000_000_000) as nat, now))
    } else {
        (false, (t, now))
    }
}

/// The buckets that were used within the last minute.
pub open spec fn swept(m: Map<Client, Level>, now: nat) -> Map<Client, Level> {
    m.restrict(
        Set::new(|c: Client| m.contains_key(c) && elapsed(m[c].1, now) < 60_000_000_000),
    )
}

/// Limits the requests of each address.
#[derive(Debug)]
pub struct RateLimiter {
    pub max_rps: u32,
    pub buckets: Vec<Bucket>,
    pub request_count: u64,
}

spec fn levels(v: Seq<Bucket>) -> Map<Client, Level>
    decreases v.len(),
{
    if v.len() == 0 {
        Map::empty()
    } else {
        levels(v.drop_last()).insert(
            v.last().client,
            (v.last().tokens as nat, v.last().last as nat),
        )
    }
}

spec fn distinct(v: Seq<Bucket>) -> bool {
    forall|i: int, j: int|
        0 <= i < j < v.len() ==> (#[trigger] v[i]).client != (#[trigger] v[j]).client
}

impl RateLimiter {
    /// One bucket per address, none over-full.
    pub closed spec fn wf(&self) -> bool {
        &&& distinct(self.buckets@)
        &&& forall|i: int|
            0 <= i < self.buckets@.len() ==> (#[trigger] self.buckets@[i]).tokens <= full(
                self.max_rps as nat,
            )
    }

    /// The level of each address's bucket.
    pub closed spec fn levels(&self) -> Map<Client, Level> {
        levels(self.buckets@)
    }

    pub fn new(max_rps: u32) -> (r: Self)
        ensures
            r.wf(),
            r.max_rps == max_rps,
            r.levels() == Map::<Client, Level>::empty(),
            r.request_count == 0,
    {
        RateLimiter { max_rps, buckets: Vec::new(), request_count: 0 }
    }

    /// Whether a request of an address is admitted at a time.
    pub fn check(&mut self, client: Client, now: u64) -> (r: bool)
        requires
            old(self).wf(),
        ensures
            final(self).wf(),
            final(self).max_rps == old(self).max_rps,
            final(self).request_count == (if old(self).request_count == u64::MAX {
                0
            } else {
                (old(self).request_count + 1) as u64
            }),
            ({
                let rps = old(self).max_rps as nat;
                let kept = if old(self).request_count % 256 == 0 {
                    swept(old(self).levels(), now as nat)
                } else {
                    old(self).levels()
                };
                let b = if kept.contains_key(client) {
                    kept[client]
                } else {
                    (full(rps), now as nat)
                };
                let d = drawn(b, rps, now as nat);
                &&& r == d.0
                &&& final(self).levels() == kept.insert(client, d.1)
            }),
    {
        let count: u64 = self.request_count;
        self.request_count = if count == u64::MAX {
            0
        } else {
            count + 1
        };
        let ghost before = self.levels();
        if count % 256 == 0 {
            self.sweep(now);
        }
        let ghost kept = self.levels();
        let cap: u64 = self.max_rps as u64 * TOKEN;
        let mut at: usize = 0;
        while at < self.buckets.len() && self.buckets[at].client != client
            invariant
                at <= self.buckets@.len(),
                forall|j: int| 0 <= j < at ==> (#[trigger] self.buckets@[j]).client != client,
            decreases self.buckets@.len() - at,
        {
            at = at + 1;
        }
        let ghost v = self.buckets@;
        if at == self.buckets.len() {
            proof {
                lemma_absent(v, client);
            }
            self.buckets.push(Bucket { client, tokens: cap, last: now });
            assert(self.buckets@.drop_last() =~= v);
        } else {
            proof {
                lemma_level(v, at as int);
            }
        }
        let ghost w = self.buckets@;
        let b = self.buckets[at];
        assert(b.tokens <= cap);
        let gone: u64 = if b.last < now {
            now - b.last
        } else {
            0
        };
        proof {
            assert(gone * self.max_rps <= u64::MAX * u32::MAX) by (nonlinear_arith)
                requires
                    gone <= u64::MAX,
                    self.max_rps <= u32::MAX,
            ;
        }
        let sum: u128 = b.tokens as u128 + gone as u128 * self.max_rps as u128;
        let t: u64 = if sum < cap as u128 {
            sum as u64
        } else {
            cap
        };
        let ok: bool = t >= TOKEN;
        let left: u64 = if ok {
            t - TOKEN
        } else {
            t
        };
        self.buckets.set(at, Bucket { client, tokens: left, last: now });
        proof {
            lemma_replaced(w, at as int, Bucket { client, tokens: left, last: now });
            if at < v.len() {
                assert(w == v);
            } else {
                assert(levels(w) == levels(v).insert(client, (cap as nat, now as nat)));
                assert(levels(w).insert(client, (left as nat, now as nat)) =~= levels(v).insert(
                    client,
                    (left as nat, now as nat),
                ));
            }
            assert(elapsed(b.last as nat, now as nat) == gone);
            assert(gone * self.max_rps == gone as nat * (self.max_rps as nat));
        }
        ok
    }

    /// Drops the buckets that were idle for a minute.
    fn sweep(&mut self, now: u64)
        requires
            old(self).wf(),
        ensures
            final(self).wf(),
            final(self).max_rps == old(self).max_rps,
            final(self).request_count == old(self).request_count,
            final(self).levels() == swept(old(self).levels(), now as nat),
    {
        let mut kept: Vec<Bucket> = Vec::new();
        let mut i: usize = 0;
        let ghost v = self.buckets@;
        proof {
            assert(swept(levels(v.take(0)), now as nat) =~= Map::<Client, Level>::empty());
        }
        while i < self.buckets.len()
            invariant
                i <= v.len(),
                v == self.buckets@,
                self.max_rps == old(self).max_rps,
                self.request_count == old(self).request_count,
                v == old(self).buckets@,
                distinct(v),
                distinct(kept@),
                forall|j: int|
                    0 <= j < v.len() ==> (#[trigger] v[j]).tokens <= full(self.max_rps as nat),
                forall|j: int|
                    0 <= j < kept@.len() ==> (#[trigger] kept@[j]).tokens <= full(
                        self.max_rps as nat,
                    ),
                forall|j: int, k: int|
                    0 <= j < kept@.len() && i <= k < v.len() ==> (#[trigger] kept@[j]).client != (
                    #[trigger] v[k]).client,
                levels(kept@) == swept(levels(v.take(i as int)), now as nat),
            decreases v.len() - i,
        {
            let b = self.buckets[i];
            let gone: u64 = if b.last < now {
                now - b.last
            } else {
                0
            };
            let ghost done = v.take(i as int);
            let ghost more = v.take(i + 1);
            let ghost was = kept@;
            proof {
                assert(more.drop_last() =~= done);
                lemma_absent_prefix(v, i as int);
            }
            if gone / 1_000_000_000 < 60 {
                kept.push(b);
                assert(kept@.drop_last() =~= was);
                assert(levels(kept@) =~= swept(levels(more), now as nat));
            } else {
                assert(levels(kept@) =~= swept(levels(more), now as nat));
            }
            i = i + 1;
        }
        assert(v.take(v.len() as int) =~= v);
        self.buckets = kept;
    }
}

proof fn lemma_absent(v: Seq<Bucket>, c: Client)
    requires
        forall|j: int| 0 <= j < v.len() ==> (#[trigger] v[j]).client != c,
    ensures
        !levels(v).contains_key(c),
    decreases v.len(),
{
    if v.len() > 0 {
        let p = v.drop_last();
        assert forall|j: int| 0 <= j < p.len() implies (#[trigger] p[j]).client != c by {
            assert(p[j] == v[j]);
        }
        lemma_absent(p, c);
        assert(v[v.len() - 1].client != c);
    }
}

proof fn lemma_absent_prefix(v: Seq<Bucket>, i: int)
    requires
        distinct(v),
        0 <= i < v.len(),
    ensures
        !levels(v.take(i)).contains_key(v[i].client),
{
    let p = v.take(i);
    assert forall|j: int| 0 <= j < p.len() implies (#[trigger] p[j]).client != v[i].client by {
        assert(p[j] == v[j]);
    }
    lemma_absent(p, v[i].client);
}

proof fn lemma_level(v: Seq<Bucket>, at: int)
    requires
        distinct(v),
        0 <= at < v.len(),
    ensures
        levels(v).contains_key(v[at].client),
        levels(v)[v[at].client] == (v[at].tokens as nat, v[at].last as nat),
    decreases v.len(),
{
    if at < v.len() - 1 {
        let p = v.drop_last();
        assert forall|i: int, j: int| 0 <= i < j < p.len() implies (#[trigger] p[i]).client != (
        #[trigger] p[j]).client by {
            assert(p[i] == v[i] && p[j] == v[j]);
        }
        lemma_level(p, at);
        assert(v[at].client != v[v.len() - 1].client);
    }
}

proof fn lemma_replaced(v: Seq<Bucket>, at: int, b: Bucket)
    requires
        distinct(v),
        0 <= at < v.len(),
        v[at].client == b.client,
    ensures
        levels(v.update(at, b)) == levels(v).insert(b.client, (b.tokens as nat, b.last as nat)),
        distinct(v.update(at, b)),
    decreases v.len(),
{
    let u = v.update(at, b);
    if at < v.len() - 1 {
        let p = v.drop_last();
        assert forall|i: int, j: int| 0 <= i < j < p.len() implies (#[trigger] p[i]).client != (
        #[trigger] p[j]).client by {
            assert(p[i] == v[i] && p[j] == v[j]);
        }
        lemma_replaced(p, at, b);
        assert(u.drop_last() =~= p.update(at, b));
        assert(v[at].client != v[v.len() - 1].client);
        assert(u.last() == v.last());
        assert(levels(u) =~= levels(v).insert(b.client, (b.tokens as nat, b.last as nat)));
    } else {
        assert(u.drop_last() =~= v.drop_last());
        assert(levels(u) =~= levels(v).insert(b.client, (b.tokens as nat, b.last as nat)));
    }
    assert forall|i: int, j: int| 0 <= i < j < u.len() implies (#[trigger] u[i]).client != (
    #[trigger] u[j]).client by {
        assert(v[i].client != v[j].client);
    }
}

/// A bucket that was idle for a minute is full again, so that sweeping it out changes no
/// decision.
pub proof fn sweeping_changes_no_decision(b: Level, rps: nat, now: nat)
    requires
        elapsed(b.1, now) >= 60_000_000_000,
    ensures
        drawn(b, rps, now) == drawn((full(rps), now), rps, now),
{
    assert(elapsed(b.1, now) * rps >= 60_000_000_000 * rps) by (nonlinear_arith)
        requires
            elapsed(b.1, now) >= 60_000_000_000,
    ;
    assert(0 * rps == 0) by (nonlinear_arith);
}

/// The requests of one address that are admitted at the given times.
pub open spec fn admitted(b: Level, rps: nat, times: Seq<nat>) -> nat
    decreases times.len(),
{
    if times.len() == 0 {
        0
    } else {
        let d = drawn(b, rps, times[0]);
        (if d.0 {
            1nat
        } else {
            0
        }) + admitted(d.1, rps, times.skip(1))
    }
}

/// Of requests at rising times, no more are admitted than the bucket held at the start
/// plus what flowed in until the last of them.
pub proof fn admissions_are_bounded(b: Level, rps: nat, times: Seq<nat>)
    requires
        b.0 <= full(rps),
        times.len() > 0,
        b.1 <= times[0],
        forall|i: int, j: int| 0 <= i <= j < times.len() ==> times[i] <= times[j],
    ensures
        admitted(b, rps, times) * 1_000_000_000 <= b.0 + (times.last() - b.1) * rps,
    decreases times.len(),
{
    reveal_with_fuel(admitted, 2);
    let d = drawn(b, rps, times[0]);
    let rest = times.skip(1);
    assert(times[0] <= times[times.len() - 1]);
    if rest.len() > 0 {
        assert forall|i: int, j: int| 0 <= i <= j < rest.len() implies rest[i] <= rest[j] by {
            assert(rest[i] == times[i + 1] && rest[j] == times[j + 1]);
        }
        assert(rest[0] == times[1]);
        admissions_are_bounded(d.1, rps, rest);
        assert(rest.last() == times.last());
        assert((times.last() - b.1) * rps == (times.last() - times[0]) * rps + (times[0] - b.1)
            * rps) by (nonlinear_arith);
    } else {
        assert(times.last() == times[0]);
    }
}

/// The first address of a forwarding chain, as text.
pub open spec fn first_hop(v: Seq<char>) -> Seq<char> {
    text::trimmed(text::split_on(v, ',')[0])
}

/// The client that the value of `X-Forwarded-For` names first.
pub fn forwarded_client(v: &str) -> (r: String)
    ensures
        r@ == first_hop(v@),
{
    let parts = text::split(text::chars(v).as_slice(), ',');
    assert(text::views(parts@)[0] == parts@[0]@);
    text::from_chars(text::trim(parts[0].as_slice()).as_slice())
}

/// The address 127.0.0.1.
pub open spec fn loopback() -> Client {
    Client { v6: false, bits: 0x7f00_0001 }
}

/// The address a request counts for: the one forwarded, else the peer's, else the
/// loopback address.
pub fn client_of(forwarded: Option<Client>, peer: Option<Client>) -> (r: Client)
    ensures
        r == (match forwarded {
            Some(c) => c,
            None => match peer {
                Some(c) => c,
                None => loopback(),
            },
        }),
{
    match forwarded {
        Some(c) => c,
        None => match peer {
            Some(c) => c,
            None => Client { v6: false, bits: 0x7f00_0001 },
        },
    }
}

/// A request is admitted exactly when the bucket holds a token: what it held, and `rps` for
/// every second since, up to a full bucket; the token is then taken out.
pub proof fn tokens_admit_requests(b: Level, rps: nat, now: nat)
    requires
        b.1 <= now,
        rps >= 1,
    ensures
        ({
            let (ok, after) = drawn(b, rps, now);
            let sum = b.0 + (now - b.1) * rps;
            &&& ok <==> sum >= 1_000_000_000
            &&& after.1 == now
            &&& !ok ==> after.0 == sum
            &&& ok && sum < rps * 1_000_000_000 ==> after.0 == sum - 1_000_000_000
            &&& ok && sum >= rps * 1_000_000_000 ==> after.0 == (rps - 1) * 1_000_000_000
        }),
{
    assert((now - b.1) * rps >= 0) by (nonlinear_arith)
        requires
            now >= b.1,
    ;
    if b.1 == now {
        assert((now - b.1) * rps == 0) by (nonlinear_arith)
            requires
                b.1 == now,
        ;
        assert(elapsed(b.1, now) * rps == 0) by (nonlinear_arith)
            requires
                elapsed(b.1, now) == 0,
        ;
    }
}

/// A new client may send as many requests at once as it may send in a second, and no more.
pub proof fn bursts_fill_a_second(rps: nat, used: nat, now: nat, times: Seq<nat>)
    requires
        used <= rps,
        forall|i: int| 0 <= i < times.len() ==> times[i] == now,
    ensures
        admitted(((rps - used) as nat * 1_000_000_000, now), rps, times) == if times.len() <= rps
            - used {
            times.len()
        } else {
            (rps - used) as nat
        },
    decreases times.len(),
{
    let b: Level = ((rps - used) as nat * 1_000_000_000, now);
    assert(0 * rps == 0) by (nonlinear_arith);
    if times.len() > 0 {
        assert(times[0] == now);
        let rest = times.skip(1);
        assert forall|i: int| 0 <= i < rest.len() implies rest[i] == now by {
            assert(rest[i] == times[i + 1]);
        }
        assert(filled(b, rps, now) == b.0);
        if used < rps {
            bursts_fill_a_second(rps, used + 1, now, rest);
            assert(drawn(b, rps, now) == (true, ((rps - used - 1) as nat * 1_000_000_000, now)));
        } else {
            bursts_fill_a_second(rps, used, now, rest);
        }
    }
}

/// A client that sends no faster than it may is never refused: after a request, a pause of a
/// second's share brings the token back.
pub proof fn steady_clients_are_admitted(b: Level, rps: nat, now: nat)
    requires
        rps >= 1,
        b.1 <= now,
        (now - b.1) * rps >= 1_000_000_000,
    ensures
        drawn(b, rps, now).0,
{
    tokens_admit_requests(b, rps, now);
}

/// A sweep keeps exactly the buckets that were used within the last minute, as they are.
pub proof fn sweeps_drop_idle_clients(m: Map<Client, Level>, now: nat, c: Client)
    requires
        m.contains_key(c) ==> m[c].1 <= now,
    ensures
        swept(m, now).contains_key(c) <==> m.contains_key(c) && now - m[c].1 < 60_000_000_000,
        swept(m, now).contains_key(c) ==> swept(m, now)[c] == m[c],
{
}

/// A request counts for the address that was forwarded, before that of the peer.
pub proof fn forwarded_addresses_count(forwarded: Option<Client>, peer: Option<Client>, r: Client)
    requires
        call_ensures(client_of, (forwarded, peer), r),
    ensures
        forwarded matches Some(c) ==> r == c,
        forwarded is None && peer is Some ==> r == peer->0,
        forwarded is None && peer is None ==> !r.v6 && r.bits == 127 * 0x100_0000 + 1,
{
}

/// Of a forwarding chain the first address counts, without the white space round it.
pub proof fn first_hops_count(
    v: &str,
    a: Seq<char>,
    hop: Seq<char>,
    b: Seq<char>,
    rest: Seq<char>,
    r: String,
)
    requires
        call_ensures(forwarded_client, (v,), r),
        text::all_white(a),
        text::all_white(b),
        hop.len() > 0,
        !text::is_white(hop[0]),
        !text::is_white(hop[hop.len() - 1]),
        !(a + hop + b).contains(','),
    ensures
        v@ == a + hop + b ==> r@ == hop,
        v@ == a + hop + b + seq![','] + rest ==> r@ == hop,
{
    let first = a + hop + b;
    text::trimming_takes_white_space(a, hop, b);
    if v@ == first {
        text::lemma_split_plain(first, ',');
    }
    if v@ == first + seq![','] + rest {
        text::lemma_split_plain(first, ',');
        text::lemma_split_around(first, rest, ',');
        assert((text::split_on(first, ',') + text::split_on(rest, ','))[0] == first);
    }
}

} // verus!
