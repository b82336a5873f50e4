//! Walks over all keys: resilvering, migration, scrubbing, draining the repair
//! queue.  A walk goes page by page and remembers where it is.
use vstd::prelude::*;
use crate::bytes;
use crate::domain::{BlockKey, DomainResult, ScrubStep};
use crate::heal::{HealPriority, HealQueue};
use crate::heal;
use crate::migrate::MigrateOutcome;

verus! {

/// What a scrub of a page of one shard found.
#[derive(Debug)]
pub struct ScrubReport {
    pub checked: u64,
    pub corrupt: u64,
    pub repaired: u64,
    pub unrepairable: u64,
    pub last_key: Option<BlockKey>,
    pub done: bool,
}

impl ScrubReport {
    /// A report over a scrub step, before any repair.
    pub fn begin(step: &ScrubStep) -> (r: Self)
        ensures
            r.checked == step.checked,
            r.corrupt == step.corrupt@.len(),
            r.repaired == 0,
            r.unrepairable == 0,
            key_view(r.last_key) == key_view(step.last_key),
            r.done == step.done,
    {
        ScrubReport {
            checked: step.checked,
            corrupt: step.corrupt.len() as u64,
            repaired: 0,
            unrepairable: 0,
            last_key: copy_key(&step.last_key),
            done: step.done,
        }
    }

    /// Notes the repair of a corrupt key: it counts as repaired when something
    /// was written and nothing is left to do; otherwise the key has to be
    /// retried urgently.
    pub fn note(&mut self, outcome: &DomainResult<(usize, usize)>) -> (retry: bool)
        requires
            old(self).repaired < u64::MAX,
            old(self).unrepairable < u64::MAX,
        ensures
            retry == !(outcome matches Ok(x) && x.0 > 0 && x.1 == 0),
            final(self).checked == old(self).checked,
            final(self).corrupt == old(self).corrupt,
            final(self).last_key == old(self).last_key,
            final(self).done == old(self).done,
            final(self).repaired == old(self).repaired + (if retry {
                0int
            } else {
                1
            }),
            final(self).unrepairable == old(self).unrepairable + (if retry {
                1int
            } else {
                0
            }),
    {
        let fixed = match outcome {
            Ok((repaired, left)) => *repaired > 0 && *left == 0,
            Err(_) => false,
        };
        if fixed {
            self.repaired = self.repaired + 1;
        } else {
            self.unrepairable = self.unrepairable + 1;
        }
        !fixed
    }
}

/// A key by value.
pub open spec fn key_view(k: Option<BlockKey>) -> Option<Seq<u8>> {
    match k {
        Some(x) => Some(x@),
        None => None,
    }
}

fn copy_key(k: &Option<BlockKey>) -> (r: Option<BlockKey>)
    ensures
        key_view(r) == key_view(*k),
{
    match k {
        Some(x) => Some(x.clone()),
        None => None,
    }
}

/// The last key of a page.
pub open spec fn last_of(keys: Seq<(Vec<u8>, u64)>) -> Option<Seq<u8>> {
    if keys.len() == 0 {
        None
    } else {
        Some(keys.last().0@)
    }
}

/// The last key of a page.
pub fn last_key(keys: &Vec<(Vec<u8>, u64)>) -> (r: Option<BlockKey>)
    ensures
        key_view(r) == last_of(keys@),
{
    let n: usize = keys.len();
    if n == 0 {
        return None;
    }
    let k = bytes::copy_range(keys[n - 1].0.as_slice(), 0, keys[n - 1].0.len());
    assert(k@ =~= keys@.last().0@);
    Some(BlockKey(k))
}

/// What a resilver did.
#[derive(Debug)]
pub struct ResilverReport {
    pub scanned: usize,
    pub repaired: usize,
    pub errors: usize,
    pub last_key: Option<BlockKey>,
    pub done: bool,
}

impl ResilverReport {
    /// An empty report.
    pub fn new() -> (r: Self)
        ensures
            r.scanned == 0,
            r.repaired == 0,
            r.errors == 0,
            r.last_key is None,
            !r.done,
    {
        ResilverReport { scanned: 0, repaired: 0, errors: 0, last_key: None, done: false }
    }

    /// A report over a page asked for with `batch`: a short page is the last.
    pub fn begin(keys: &Vec<(Vec<u8>, u64)>, batch: usize) -> (r: Self)
        ensures
            r.scanned == keys@.len(),
            r.repaired == 0,
            r.errors == 0,
            key_view(r.last_key) == last_of(keys@),
            r.done == (keys@.len() < batch),
    {
        ResilverReport {
            scanned: keys.len(),
            repaired: 0,
            errors: 0,
            last_key: last_key(keys),
            done: keys.len() < batch,
        }
    }

    /// Notes the repair of one key: what was repaired and what is left, or one
    /// error when no source could be read.
    pub fn note(&mut self, outcome: &DomainResult<(usize, usize)>)
        requires
            outcome matches Ok(x) ==> old(self).repaired + x.0 <= usize::MAX && old(self).errors
                + x.1 <= usize::MAX,
            outcome is Err ==> old(self).errors < usize::MAX,
        ensures
            final(self).scanned == old(self).scanned,
            final(self).last_key == old(self).last_key,
            final(self).done == old(self).done,
            match *outcome {
                Ok(x) => final(self).repaired == old(self).repaired + x.0 && final(self).errors
                    == old(self).errors + x.1,
                Err(_) => final(self).repaired == old(self).repaired && final(self).errors == old(
                    self,
                ).errors + 1,
            },
    {
        match outcome {
            Ok((repaired, left)) => {
                self.repaired = self.repaired + *repaired;
                self.errors = self.errors + *left;
            },
            Err(_) => {
                self.errors = self.errors + 1;
            },
        }
    }

    /// Adds a page's report to the total; the walk ends with the last page.
    /// Returns where it goes on.
    pub fn add_page(&mut self, page: &ResilverReport) -> (r: WalkNext)
        requires
            old(self).scanned + page.scanned <= usize::MAX,
            old(self).repaired + page.repaired <= usize::MAX,
            old(self).errors + page.errors <= usize::MAX,
        ensures
            final(self).scanned == old(self).scanned + page.scanned,
            final(self).repaired == old(self).repaired + page.repaired,
            final(self).errors == old(self).errors + page.errors,
            key_view(final(self).last_key) == key_view(page.last_key),
            r@ == walk_after(page.done, key_view(page.last_key)),
            final(self).done == (r@ is Stop || old(self).done),
    {
        self.scanned = self.scanned + page.scanned;
        self.repaired = self.repaired + page.repaired;
        self.errors = self.errors + page.errors;
        self.last_key = copy_key(&page.last_key);
        let next = walk_next(page.done, &page.last_key);
        match &next {
            WalkNext::Stop => {
                self.done = true;
            },
            WalkNext::GoOn(_) => {},
        }
        next
    }
}

/// Where a walk goes on.
#[derive(Debug)]
pub enum WalkNext {
    /// after this key, which is remembered across restarts
    GoOn(BlockKey),
    /// nowhere: the remembered position is forgotten
    Stop,
}

/// [`WalkNext`] by value.
pub ghost enum WalkView {
    GoOn(Seq<u8>),
    Stop,
}

impl View for WalkNext {
    type V = WalkView;

    open spec fn view(&self) -> WalkView {
        match *self {
            WalkNext::GoOn(k) => WalkView::GoOn(k@),
            WalkNext::Stop => WalkView::Stop,
        }
    }
}

/// A walk goes on after the last key of a page, unless that was the last page.
pub open spec fn walk_after(done: bool, last: Option<Seq<u8>>) -> WalkView {
    match last {
        Some(k) => if done {
            WalkView::Stop
        } else {
            WalkView::GoOn(k)
        },
        None => WalkView::Stop,
    }
}

pub fn walk_next(done: bool, last: &Option<BlockKey>) -> (r: WalkNext)
    ensures
        r@ == walk_after(done, key_view(*last)),
{
    match last {
        Some(k) => {
            if done {
                WalkNext::Stop
            } else {
                WalkNext::GoOn(k.clone())
            }
        },
        None => WalkNext::Stop,
    }
}

/// What a migration did.
#[derive(Debug)]
pub struct MigrateReport {
    pub scanned: usize,
    pub migrated: usize,
    /// too small for pieces: stays mirrored
    pub skipped_small: usize,
    /// pieces already
    pub skipped_ec: usize,
    /// a piece did not read back: the mirror was left as it was
    pub canary_failed: usize,
    pub errors: usize,
    pub last_key: Option<BlockKey>,
    pub done: bool,
}

impl MigrateReport {
    /// Keys that were dealt with in some way.
    pub open spec fn handled(&self) -> int {
        self.migrated + self.skipped_small + self.skipped_ec + self.canary_failed + self.errors
    }

    /// An empty report.
    pub fn new() -> (r: Self)
        ensures
            r.scanned == 0,
            r.handled() == 0,
            r.migrated == 0,
            r.skipped_small == 0,
            r.skipped_ec == 0,
            r.canary_failed == 0,
            r.errors == 0,
            r.last_key is None,
            !r.done,
    {
        MigrateReport {
            scanned: 0,
            migrated: 0,
            skipped_small: 0,
            skipped_ec: 0,
            canary_failed: 0,
            errors: 0,
            last_key: None,
            done: false,
        }
    }

    /// A report over a page asked for with `batch`: a short page is the last.
    pub fn begin(keys: &Vec<(Vec<u8>, u64)>, batch: usize) -> (r: Self)
        ensures
            r.scanned == keys@.len(),
            r.handled() == 0,
            r.migrated == 0,
            r.skipped_small == 0,
            r.skipped_ec == 0,
            r.canary_failed == 0,
            r.errors == 0,
            key_view(r.last_key) == last_of(keys@),
            r.done == (keys@.len() < batch),
    {
        MigrateReport {
            scanned: keys.len(),
            migrated: 0,
            skipped_small: 0,
            skipped_ec: 0,
            canary_failed: 0,
            errors: 0,
            last_key: last_key(keys),
            done: keys.len() < batch,
        }
    }

    /// Notes the outcome for one key.
    pub fn note(&mut self, outcome: &DomainResult<MigrateOutcome>)
        requires
            old(self).handled() < usize::MAX,
        ensures
            final(self).scanned == old(self).scanned,
            final(self).last_key == old(self).last_key,
            final(self).done == old(self).done,
            final(self).handled() == old(self).handled() + 1,
            final(self).migrated == old(self).migrated + (if outcome matches Ok(o) && o is Migrated {
                1int
            } else {
                0
            }),
            final(self).skipped_small == old(self).skipped_small + (if outcome matches Ok(o) && o
                is SkippedSmall {
                1int
            } else {
                0
            }),
            final(self).skipped_ec == old(self).skipped_ec + (if outcome matches Ok(o) && o
                is SkippedEc {
                1int
            } else {
                0
            }),
            final(self).canary_failed == old(self).canary_failed + (if outcome matches Ok(o) && o
                is CanaryFailed {
                1int
            } else {
                0
            }),
            final(self).errors == old(self).errors + (if outcome is Err {
                1int
            } else {
                0
            }),
    {
        match outcome {
            Ok(MigrateOutcome::Migrated) => {
                self.migrated = self.migrated + 1;
            },
            Ok(MigrateOutcome::SkippedSmall) => {
                self.skipped_small = self.skipped_small + 1;
            },
            Ok(MigrateOutcome::SkippedEc) => {
                self.skipped_ec = self.skipped_ec + 1;
            },
            Ok(MigrateOutcome::CanaryFailed) => {
                self.canary_failed = self.canary_failed + 1;
            },
            Err(_) => {
                self.errors = self.errors + 1;
            },
        }
    }

    /// Adds a page's report to the total; the walk ends with the last page.
    /// Returns where it goes on.
    pub fn add_page(&mut self, page: &MigrateReport) -> (r: WalkNext)
        requires
            old(self).scanned + page.scanned <= usize::MAX,
            old(self).handled() + page.handled() <= usize::MAX,
        ensures
            final(self).scanned == old(self).scanned + page.scanned,
            final(self).migrated == old(self).migrated + page.migrated,
            final(self).skipped_small == old(self).skipped_small + page.skipped_small,
            final(self).skipped_ec == old(self).skipped_ec + page.skipped_ec,
            final(self).canary_failed == old(self).canary_failed + page.canary_failed,
            final(self).errors == old(self).errors + page.errors,
            key_view(final(self).last_key) == key_view(page.last_key),
            r@ == walk_after(page.done, key_view(page.last_key)),
            final(self).done == (r@ is Stop || old(self).done),
    {
        self.scanned = self.scanned + page.scanned;
        self.migrated = self.migrated + page.migrated;
        self.skipped_small = self.skipped_small + page.skipped_small;
        self.skipped_ec = self.skipped_ec + page.skipped_ec;
        self.canary_failed = self.canary_failed + page.canary_failed;
        self.errors = self.errors + page.errors;
        self.last_key = copy_key(&page.last_key);
        let next = walk_next(page.done, &page.last_key);
        match &next {
            WalkNext::Stop => {
                self.done = true;
            },
            WalkNext::GoOn(_) => {},
        }
        next
    }
}

/// Requests by value.
pub open spec fn request_views(v: Seq<(BlockKey, HealPriority)>) -> Seq<(Seq<u8>, HealPriority)> {
    Seq::new(v.len(), |i: int| (v[i].0@, v[i].1))
}

/// Whether `out` are the requests a queue serves one after the other, `rest`
/// being what stays.
pub open spec fn served(
    q: Seq<(Seq<u8>, HealPriority)>,
    out: Seq<(Seq<u8>, HealPriority)>,
    rest: Seq<(Seq<u8>, HealPriority)>,
) -> bool
    decreases out.len(),
{
    if out.len() == 0 {
        rest == q
    } else {
        exists|i: int|
            #![trigger heal::is_next(q, i)]
            heal::is_next(q, i) && q[i] == out[0] && served(q.remove(i), out.skip(1), rest)
    }
}

proof fn lemma_served_one_more(
    q: Seq<(Seq<u8>, HealPriority)>,
    out: Seq<(Seq<u8>, HealPriority)>,
    mid: Seq<(Seq<u8>, HealPriority)>,
    i: int,
)
    requires
        served(q, out, mid),
        heal::is_next(mid, i),
    ensures
        served(q, out.push(mid[i]), mid.remove(i)),
    decreases out.len(),
{
    let w = out.push(mid[i]);
    if out.len() == 0 {
        assert(w.skip(1) =~= Seq::empty());
        assert(served(q.remove(i), w.skip(1), mid.remove(i)));
    } else {
        let j = choose|j: int|
            #![trigger heal::is_next(q, j)]
            heal::is_next(q, j) && q[j] == out[0] && served(q.remove(j), out.skip(1), mid);
        lemma_served_one_more(q.remove(j), out.skip(1), mid, i);
        assert(w.skip(1) =~= out.skip(1).push(mid[i]));
        assert(w[0] == out[0]);
    }
}

/// Takes up to `max` requests, the most important first.
pub fn take_batch(queue: &mut HealQueue, max: usize) -> (r: Vec<(BlockKey, HealPriority)>)
    requires
        heal::no_doubles(old(queue)@),
    ensures
        heal::no_doubles(final(queue)@),
        served(old(queue)@, request_views(r@), final(queue)@),
        r@.len() == (if old(queue)@.len() < max {
            old(queue)@.len()
        } else {
            max as nat
        }),
        final(queue)@.len() + r@.len() == old(queue)@.len(),
{
    let mut out: Vec<(BlockKey, HealPriority)> = Vec::new();
    assert(request_views(out@) =~= Seq::empty());
    while out.len() < max && queue.len() > 0
        invariant
            heal::no_doubles(queue@),
            served(old(queue)@, request_views(out@), queue@),
            out@.len() <= max,
            queue@.len() + out@.len() == old(queue)@.len(),
        decreases queue@.len(),
    {
        let ghost before = queue@;
        let ghost had = request_views(out@);
        match queue.pop() {
            Some(x) => {
                proof {
                    let i = choose|i: int| #[trigger]
                        heal::is_next(before, i) && before[i] == (x.0@, x.1) && queue@
                            == before.remove(i);
                    lemma_served_one_more(old(queue)@, had, before, i);
                }
                out.push(x);
                assert(request_views(out@) =~= had.push((x.0@, x.1)));
            },
            None => {
                return out;
            },
        }
    }
    out
}

/// A repair of a queued key is done when nothing is left to do.
pub fn is_healed(outcome: &DomainResult<(usize, usize)>) -> (r: bool)
    ensures
        r == (outcome matches Ok(x) && x.1 == 0),
{
    match outcome {
        Ok((_, left)) => *left == 0,
        Err(_) => false,
    }
}

/// The requests that were not healed, in order.
pub open spec fn kept(batch: Seq<(Seq<u8>, HealPriority)>, healed: Seq<bool>) -> Seq<
    (Seq<u8>, HealPriority),
>
    decreases batch.len(),
{
    if batch.len() == 0 {
        Seq::empty()
    } else {
        let rest = kept(batch.drop_last(), healed);
        if healed[batch.len() - 1] {
            rest
        } else {
            rest.push(batch.last())
        }
    }
}

/// A queue after requests were added in turn.
pub open spec fn pushed_all(
    q: Seq<(Seq<u8>, HealPriority)>,
    requests: Seq<(Seq<u8>, HealPriority)>,
) -> Seq<(Seq<u8>, HealPriority)>
    decreases requests.len(),
{
    if requests.len() == 0 {
        q
    } else {
        heal::pushed(
            pushed_all(q, requests.drop_last()),
            requests.last().0,
            requests.last().1,
        )
    }
}

/// Ends a drain: the requests that were not healed wait again, each with its priority.
/// Returns how many were healed and how many wait again.
pub fn settle_batch(
    q: &mut HealQueue,
    batch: Vec<(BlockKey, HealPriority)>,
    healed: &Vec<bool>,
) -> (r: (usize, usize))
    requires
        heal::no_doubles(old(q)@),
        batch@.len() == healed@.len(),
    ensures
        heal::no_doubles(final(q)@),
        final(q)@ == pushed_all(old(q)@, kept(request_views(batch@), healed@)),
        r.1 == kept(request_views(batch@), healed@).len(),
        r.0 + r.1 == batch@.len(),
{
    let ghost all = request_views(batch@);
    let mut done: usize = 0;
    let mut again: usize = 0;
    let mut i: usize = 0;
    assert(all.take(0) =~= Seq::empty());
    while i < batch.len()
        invariant
            i <= batch@.len(),
            batch@.len() == healed@.len(),
            all == request_views(batch@),
            heal::no_doubles(q@),
            q@ == pushed_all(old(q)@, kept(all.take(i as int), healed@)),
            again == kept(all.take(i as int), healed@).len(),
            done + again == i,
        decreases batch@.len() - i,
    {
        assert(all.take(i + 1).drop_last() =~= all.take(i as int));
        assert(all.take(i + 1).last() == (batch@[i as int].0@, batch@[i as int].1));
        if healed[i] {
            done = done + 1;
        } else {
            let ghost before = kept(all.take(i as int), healed@);
            let ghost now = kept(all.take(i + 1), healed@);
            assert(now.drop_last() =~= before);
            q.push(batch[i].0.clone(), batch[i].1);
            again = again + 1;
        }
        i = i + 1;
    }
    assert(all.take(all.len() as int) =~= all);
    (done, again)
}

/// What was served and what still waits are all different, and all waited before.
proof fn lemma_served_apart(
    q: Seq<(Seq<u8>, HealPriority)>,
    out: Seq<(Seq<u8>, HealPriority)>,
    rest: Seq<(Seq<u8>, HealPriority)>,
)
    requires
        heal::no_doubles(q),
        served(q, out, rest),
    ensures
        heal::no_doubles(rest + out),
        rest.len() + out.len() == q.len(),
        forall|x: (Seq<u8>, HealPriority)| #[trigger] (rest + out).contains(x) ==> q.contains(x),
    decreases out.len(),
{
    let all = rest + out;
    if out.len() == 0 {
        assert(all =~= q);
    } else {
        let i = choose|i: int|
            #![trigger heal::is_next(q, i)]
            heal::is_next(q, i) && q[i] == out[0] && served(q.remove(i), out.skip(1), rest);
        let less = q.remove(i);
        assert forall|a: int, b: int| 0 <= a < b < less.len() implies (#[trigger] less[a]).0 != (
        #[trigger] less[b]).0 by {
            let a1 = if a < i {
                a
            } else {
                a + 1
            };
            let b1 = if b < i {
                b
            } else {
                b + 1
            };
            assert(less[a] == q[a1] && less[b] == q[b1]);
        }
        lemma_served_apart(less, out.skip(1), rest);
        let w = rest + out.skip(1);
        let n = rest.len() as int;
        assert forall|x: int| 0 <= x < w.len() implies (#[trigger] w[x]).0 != out[0].0 by {
            assert(w.contains(w[x]));
            assert(less.contains(w[x]));
            let y = choose|y: int| 0 <= y < less.len() && less[y] == w[x];
            if y < i {
                assert(q[y] == w[x]);
                assert(q[y].0 != q[i].0);
            } else {
                assert(q[y + 1] == w[x]);
                assert(q[i].0 != q[y + 1].0);
            }
        }
        assert forall|a: int, b: int| 0 <= a < b < all.len() implies (#[trigger] all[a]).0 != (
        #[trigger] all[b]).0 by {
            let a1 = if a < n {
                a
            } else {
                a - 1
            };
            let b1 = if b < n {
                b
            } else {
                b - 1
            };
            if a == n {
                assert(all[b] == w[b1]);
            } else if b == n {
                assert(all[a] == w[a1]);
            } else {
                assert(all[a] == w[a1] && all[b] == w[b1]);
            }
        }
        assert forall|x: (Seq<u8>, HealPriority)| #[trigger] all.contains(x) implies q.contains(
            x,
        ) by {
            let y = choose|y: int| 0 <= y < all.len() && all[y] == x;
            if y == n {
                assert(q[i] == x);
            } else {
                let y1 = if y < n {
                    y
                } else {
                    y - 1
                };
                assert(w[y1] == x);
                assert(w.contains(x));
                assert(less.contains(x));
                let z = choose|z: int| 0 <= z < less.len() && less[z] == x;
                if z < i {
                    assert(q[z] == x);
                } else {
                    assert(q[z + 1] == x);
                }
            }
        }
    }
}

/// Each kept request is one of the batch that was not healed, and all of those are kept.
proof fn lemma_kept(batch: Seq<(Seq<u8>, HealPriority)>, healed: Seq<bool>)
    requires
        batch.len() <= healed.len(),
    ensures
        kept(batch, healed).len() <= batch.len(),
        forall|x: (Seq<u8>, HealPriority)| #[trigger]
            kept(batch, healed).contains(x) ==> batch.contains(x),
        forall|i: int|
            0 <= i < batch.len() && !healed[i] ==> kept(batch, healed).contains(
                #[trigger] batch[i],
            ),
        heal::no_doubles(batch) ==> heal::no_doubles(kept(batch, healed)),
    decreases batch.len(),
{
    if batch.len() > 0 {
        let p = batch.drop_last();
        let k = kept(p, healed);
        let w = kept(batch, healed);
        lemma_kept(p, healed);
        assert forall|x: (Seq<u8>, HealPriority)| #[trigger] w.contains(
            x,
        ) implies batch.contains(x) by {
            let y = choose|y: int| 0 <= y < w.len() && w[y] == x;
            if y < k.len() {
                assert(k[y] == x);
                assert(k.contains(x));
                assert(p.contains(x));
                let z = choose|z: int| 0 <= z < p.len() && p[z] == x;
                assert(batch[z] == x);
            } else {
                assert(batch[batch.len() - 1] == x);
            }
        }
        assert forall|i: int| 0 <= i < batch.len() && !healed[i] implies w.contains(
            #[trigger] batch[i],
        ) by {
            if i < p.len() {
                assert(p[i] == batch[i]);
                assert(k.contains(p[i]));
                let y = choose|y: int| 0 <= y < k.len() && k[y] == p[i];
                assert(w[y] == batch[i]);
            } else {
                assert(w[w.len() - 1] == batch[i]);
            }
        }
        if heal::no_doubles(batch) {
            assert forall|a: int, b: int| 0 <= a < b < p.len() implies (#[trigger] p[a]).0 != (
            #[trigger] p[b]).0 by {
                assert(p[a] == batch[a] && p[b] == batch[b]);
            }
            assert forall|a: int, b: int| 0 <= a < b < w.len() implies (#[trigger] w[a]).0 != (
            #[trigger] w[b]).0 by {
                assert(w[a] == k[a]);
                if b < k.len() {
                    assert(w[b] == k[b]);
                } else {
                    assert(k.contains(k[a]));
                    assert(p.contains(k[a]));
                    let z = choose|z: int| 0 <= z < p.len() && p[z] == k[a];
                    assert(batch[z] == k[a]);
                    assert(batch[z].0 != batch[batch.len() - 1].0);
                }
            }
        }
    }
}

/// Requests that do not wait yet are added at the end while there is room.
proof fn lemma_pushed_all(
    q: Seq<(Seq<u8>, HealPriority)>,
    requests: Seq<(Seq<u8>, HealPriority)>,
)
    requires
        heal::no_doubles(q + requests),
        q.len() + requests.len() <= heal::HEAL_CAP,
    ensures
        pushed_all(q, requests) == q + requests,
    decreases requests.len(),
{
    if requests.len() == 0 {
        assert(q + requests =~= q);
    } else {
        let p = requests.drop_last();
        let all = q + requests;
        let w = q + p;
        assert forall|a: int, b: int| 0 <= a < b < w.len() implies (#[trigger] w[a]).0 != (
        #[trigger] w[b]).0 by {
            assert(w[a] == all[a] && w[b] == all[b]);
        }
        lemma_pushed_all(q, p);
        assert forall|i: int| 0 <= i < w.len() implies (#[trigger] w[i]).0 != requests.last().0 by {
            assert(w[i] == all[i]);
            assert(all[all.len() - 1] == requests.last());
            assert(all[i].0 != all[all.len() - 1].0);
        }
        assert(w.push((requests.last().0, requests.last().1)) =~= all);
    }
}

/// A drain loses no request: what was not taken still waits, in its order, and behind it
/// waits again, with its priority, every request that was taken and not healed.
pub proof fn drains_lose_no_request(
    q: Seq<(Seq<u8>, HealPriority)>,
    out: Seq<(Seq<u8>, HealPriority)>,
    rest: Seq<(Seq<u8>, HealPriority)>,
    healed: Seq<bool>,
)
    requires
        heal::no_doubles(q),
        q.len() <= heal::HEAL_CAP,
        served(q, out, rest),
        healed.len() == out.len(),
    ensures
        pushed_all(rest, kept(out, healed)) == rest + kept(out, healed),
        pushed_all(rest, kept(out, healed)).len() == q.len() - (out.len() - kept(
            out,
            healed,
        ).len()),
        forall|i: int|
            0 <= i < out.len() && !healed[i] ==> pushed_all(rest, kept(out, healed)).contains(
                #[trigger] out[i],
            ),
{
    lemma_served_apart(q, out, rest);
    let all = rest + out;
    assert forall|a: int, b: int| 0 <= a < b < out.len() implies (#[trigger] out[a]).0 != (
    #[trigger] out[b]).0 by {
        assert(all[rest.len() + a] == out[a] && all[rest.len() + b] == out[b]);
    }
    lemma_kept(out, healed);
    let k = kept(out, healed);
    let w = rest + k;
    let n = rest.len() as int;
    assert forall|a: int, b: int| 0 <= a < b < w.len() implies (#[trigger] w[a]).0 != (
    #[trigger] w[b]).0 by {
        if b < n {
            assert(w[a] == all[a] && w[b] == all[b]);
        } else if a >= n {
            assert(w[a] == k[a - n] && w[b] == k[b - n]);
        } else {
            assert(k.contains(k[b - n]));
            assert(out.contains(k[b - n]));
            let z = choose|z: int| 0 <= z < out.len() && out[z] == k[b - n];
            assert(all[a] == w[a] && all[n + z] == w[b]);
        }
    }
    lemma_pushed_all(rest, k);
    assert forall|i: int| 0 <= i < out.len() && !healed[i] implies w.contains(
        #[trigger] out[i],
    ) by {
        assert(k.contains(out[i]));
        let y = choose|y: int| 0 <= y < k.len() && k[y] == out[i];
        assert(w[n + y] == out[i]);
    }
}

/// A walk goes on after the last key of every page but the last, and stops at an empty one.
pub proof fn walks_go_on(done: bool, last: &Option<BlockKey>, r: WalkNext)
    requires
        call_ensures(walk_next, (done, last), r),
    ensures
        done ==> r is Stop,
        last is None ==> r is Stop,
        !done && last is Some ==> (r matches WalkNext::GoOn(k) && k@ == (last->0)@),
{
    assert(r@ is Stop || r@ is GoOn);
}

/// A page is the last exactly when it is short, and a walk remembers its last key, at any
/// length of the page.
pub proof fn short_pages_are_last(
    keys: &Vec<(Vec<u8>, u64)>,
    batch: usize,
    resilver: ResilverReport,
    migrate: MigrateReport,
    last: Option<BlockKey>,
)
    requires
        call_ensures(ResilverReport::begin, (keys, batch), resilver),
        call_ensures(MigrateReport::begin, (keys, batch), migrate),
        call_ensures(last_key, (keys,), last),
    ensures
        resilver.scanned == keys@.len() && migrate.scanned == keys@.len(),
        resilver.done == (keys@.len() < batch) && migrate.done == (keys@.len() < batch),
        keys@.len() > 0 ==> last is Some && (last->0)@ == keys@[keys@.len() - 1].0@,
        keys@.len() == 0 ==> last is None,
        key_view(resilver.last_key) == key_view(last) && key_view(migrate.last_key) == key_view(
            last,
        ),
        resilver.repaired == 0 && resilver.errors == 0,
        migrate.migrated == 0 && migrate.skipped_small == 0 && migrate.skipped_ec == 0
            && migrate.canary_failed == 0 && migrate.errors == 0,
{
    assert(keys@.len() > 0 ==> keys@.last() == keys@[keys@.len() - 1]);
}

/// A key is healed exactly when its repair leaves nothing to do.
pub proof fn healed_keys_are_whole(outcome: &DomainResult<(usize, usize)>, r: bool)
    requires
        call_ensures(is_healed, (outcome,), r),
    ensures
        match *outcome {
            Ok((_, left)) => r == (left == 0),
            Err(_) => !r,
        },
{
}

/// A scrub report begins with what the step found: every corrupt key is counted.
pub proof fn corrupt_keys_are_counted(step: &ScrubStep, r: ScrubReport)
    requires
        step.corrupt@.len() <= u64::MAX,
        call_ensures(ScrubReport::begin, (step,), r),
    ensures
        r.checked == step.checked,
        r.corrupt == step.corrupt@.len(),
        r.repaired == 0 && r.unrepairable == 0,
        r.done == step.done,
        key_view(r.last_key) == key_view(step.last_key),
{
}

/// A request waits again exactly when it was not healed.
pub proof fn unhealed_requests_wait_again(
    batch: Seq<(Seq<u8>, HealPriority)>,
    healed: Seq<bool>,
    i: int,
)
    requires
        batch.len() == healed.len(),
        0 <= i < batch.len(),
    ensures
        !healed[i] ==> kept(batch, healed).contains(batch[i]),
        (forall|j: int| 0 <= j < healed.len() ==> healed[j]) ==> kept(batch, healed).len() == 0,
        (forall|j: int| 0 <= j < healed.len() ==> !healed[j]) ==> kept(batch, healed) == batch,
{
    lemma_kept_prefix(batch, healed, batch.len() as int, i);
    assert(batch.take(batch.len() as int) =~= batch);
}

proof fn lemma_kept_prefix(
    batch: Seq<(Seq<u8>, HealPriority)>,
    healed: Seq<bool>,
    n: int,
    i: int,
)
    requires
        batch.len() == healed.len(),
        0 <= i < batch.len(),
        0 <= n <= batch.len(),
    ensures
        i < n && !healed[i] ==> kept(batch.take(n), healed).contains(batch[i]),
        (forall|j: int| 0 <= j < healed.len() ==> healed[j]) ==> kept(batch.take(n), healed).len()
            == 0,
        (forall|j: int| 0 <= j < healed.len() ==> !healed[j]) ==> kept(batch.take(n), healed)
            == batch.take(n),
    decreases n,
{
    if n > 0 {
        lemma_kept_prefix(batch, healed, n - 1, i);
        assert(batch.take(n).drop_last() =~= batch.take(n - 1));
        let rest = kept(batch.take(n - 1), healed);
        let all = kept(batch.take(n), healed);
        if i < n - 1 && !healed[i] {
            let j = choose|j: int| 0 <= j < rest.len() && rest[j] == batch[i];
            assert(all[j] == batch[i]);
        } else if i == n - 1 && !healed[i] {
            assert(all[rest.len() as int] == batch[i]);
        }
        if forall|j: int| 0 <= j < healed.len() ==> !healed[j] {
            assert(!healed[n - 1]);
            assert(all =~= batch.take(n));
        }
        if forall|j: int| 0 <= j < healed.len() ==> healed[j] {
            assert(healed[n - 1]);
        }
    } else {
        assert(batch.take(0) =~= Seq::empty());
    }
}

} // verus!
