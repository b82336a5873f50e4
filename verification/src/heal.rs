//! The queue of keys waiting for repair.
//!
//! Requests wait in order of arrival within their priority.  A key waits at
//! most once; a more important request for a waiting key replaces the old one.
use vstd::prelude::*;
use crate::domain::BlockKey;

verus! {

/// Importance of a repair request.
#[derive(Clone, Copy, Debug, PartialEq, Eq, PartialOrd, Ord, Structural)]
pub enum HealPriority {
    Low,
    Normal,
    High,
    Urgent,
}

impl HealPriority {
    /// Rank: more important is larger.
    pub open spec fn rank(self) -> nat {
        match self {
            HealPriority::Low => 0,
            HealPriority::Normal => 1,
            HealPriority::High => 2,
            HealPriority::Urgent => 3,
        }
    }

    pub fn level(&self) -> (r: u8)
        ensures
            r == self.rank(),
    {
        match self {
            HealPriority::Low => 0,
            HealPriority::Normal => 1,
            HealPriority::High => 2,
            HealPriority::Urgent => 3,
        }
    }
}

/// Keys that wait at most.
pub const HEAL_CAP: usize = 100_000;

/// Waiting requests in order of arrival.
#[derive(Debug)]
pub struct HealQueue {
    pub items: Vec<(BlockKey, HealPriority)>,
}

impl View for HealQueue {
    type V = Seq<(Seq<u8>, HealPriority)>;

    open spec fn view(&self) -> Seq<(Seq<u8>, HealPriority)> {
        Seq::new(self.items@.len(), |i: int| (self.items@[i].0@, self.items@[i].1))
    }
}

/// Whether a key waits.
pub open spec fn waits(q: Seq<(Seq<u8>, HealPriority)>, key: Seq<u8>) -> bool {
    exists|i: int| 0 <= i < q.len() && (#[trigger] q[i]).0 == key
}

/// No key waits twice.
pub open spec fn no_doubles(q: Seq<(Seq<u8>, HealPriority)>) -> bool {
    forall|i: int, j: int| 0 <= i < j < q.len() ==> (#[trigger] q[i]).0 != (#[trigger] q[j]).0
}

/// The place of a waiting key.
pub open spec fn place(q: Seq<(Seq<u8>, HealPriority)>, key: Seq<u8>) -> int {
    choose|i: int| 0 <= i < q.len() && (#[trigger] q[i]).0 == key
}

/// The queue after a request: merged into one that is at least as important,
/// replacing one that is less important, refused when the queue is full.
pub open spec fn pushed(
    q: Seq<(Seq<u8>, HealPriority)>,
    key: Seq<u8>,
    prio: HealPriority,
) -> Seq<(Seq<u8>, HealPriority)> {
    if waits(q, key) {
        let i = place(q, key);
        if q[i].1.rank() >= prio.rank() {
            q
        } else {
            q.remove(i).push((key, prio))
        }
    } else if q.len() >= HEAL_CAP {
        q
    } else {
        q.push((key, prio))
    }
}

/// Whether request `i` is served next: none is more important, and none as
/// important came earlier.
pub open spec fn is_next(q: Seq<(Seq<u8>, HealPriority)>, i: int) -> bool {
    &&& 0 <= i < q.len()
    &&& forall|j: int| 0 <= j < q.len() ==> (#[trigger] q[j]).1.rank() <= q[i].1.rank()
    &&& forall|j: int| 0 <= j < i ==> (#[trigger] q[j]).1.rank() < q[i].1.rank()
}

impl HealQueue {
    pub fn new() -> (r: Self)
        ensures
            r@.len() == 0,
            no_doubles(r@),
    {
        HealQueue { items: Vec::new() }
    }

    /// Adds a request.
    pub fn push(&mut self, key: BlockKey, prio: HealPriority)
        requires
            no_doubles(old(self)@),
        ensures
            final(self)@ == pushed(old(self)@, key@, prio),
            no_doubles(final(self)@),
            final(self)@.len() <= HEAL_CAP || final(self)@.len() <= old(self)@.len(),
    {
        let ghost q = self@;
        let mut i: usize = 0;
        while i < self.items.len()
            invariant
                i <= self.items@.len(),
                self@ == q,
                q == old(self)@,
                no_doubles(q),
                forall|j: int| 0 <= j < i ==> (#[trigger] q[j]).0 != key@,
            decreases self.items@.len() - i,
        {
            assert(q[i as int] == (self.items@[i as int].0@, self.items@[i as int].1));
            if self.items[i].0.same(&key) {
                proof {
                    assert(q[i as int].0 == key@);
                    assert(waits(q, key@));
                    let p = place(q, key@);
                    assert(q[p].0 == key@);
                    assert(p == i);
                }
                if self.items[i].1.level() < prio.level() {
                    self.items.remove(i);
                    self.items.push((key, prio));
                    proof {
                        assert(self@ =~= q.remove(i as int).push((key@, prio)));
                        lemma_removed_no_doubles(q, i as int, (key@, prio));
                    }
                }
                return;
            }
            i = i + 1;
        }
        assert(!waits(q, key@));
        if self.items.len() >= HEAL_CAP {
            return;
        }
        self.items.push((key, prio));
        proof {
            assert(self@ =~= q.push((key@, prio)));
            assert forall|a: int, b: int| 0 <= a < b < self@.len() implies (#[trigger] self@[a]).0
                != (#[trigger] self@[b]).0 by {
                assert(self@[a] == q[a]);
                if b < q.len() {
                    assert(self@[b] == q[b]);
                }
            }
        }
    }

    /// Takes the next request: the most important, the earliest among equals.
    pub fn pop(&mut self) -> (r: Option<(BlockKey, HealPriority)>)
        requires
            no_doubles(old(self)@),
        ensures
            no_doubles(final(self)@),
            match r {
                None => old(self)@.len() == 0 && final(self)@ == old(self)@,
                Some(x) => exists|i: int| #[trigger]
                    is_next(old(self)@, i) && old(self)@[i] == (x.0@, x.1) && final(self)@ == old(
                        self,
                    )@.remove(i),
            },
    {
        let ghost q = self@;
        if self.items.len() == 0 {
            return None;
        }
        let mut best: usize = 0;
        let mut i: usize = 1;
        while i < self.items.len()
            invariant
                1 <= i <= self.items@.len(),
                best < i,
                self@ == q,
                forall|j: int| 0 <= j < i ==> (#[trigger] q[j]).1.rank() <= q[best as int].1.rank(),
                forall|j: int|
                    0 <= j < best ==> (#[trigger] q[j]).1.rank() < q[best as int].1.rank(),
            decreases self.items@.len() - i,
        {
            assert(q[i as int].1 == self.items@[i as int].1);
            assert(q[best as int].1 == self.items@[best as int].1);
            if self.items[i].1.level() > self.items[best].1.level() {
                best = i;
            }
            i = i + 1;
        }
        let x = self.items.remove(best);
        proof {
            assert(is_next(q, best as int));
            assert(q[best as int] == (x.0@, x.1));
            assert(self@ =~= q.remove(best as int));
            assert forall|a: int, b: int| 0 <= a < b < self@.len() implies (#[trigger] self@[a]).0
                != (#[trigger] self@[b]).0 by {
                let a1 = if a < best {
                    a
                } else {
                    a + 1
                };
                let b1 = if b < best {
                    b
                } else {
                    b + 1
                };
                assert(self@[a] == q[a1] && self@[b] == q[b1]);
            }
        }
        Some(x)
    }

    /// How many keys wait.
    pub fn len(&self) -> (r: usize)
        ensures
            r == self@.len(),
    {
        self.items.len()
    }
}

proof fn lemma_removed_no_doubles(
    q: Seq<(Seq<u8>, HealPriority)>,
    i: int,
    x: (Seq<u8>, HealPriority),
)
    requires
        no_doubles(q),
        0 <= i < q.len(),
        q[i].0 == x.0,
    ensures
        no_doubles(q.remove(i).push(x)),
{
    let w = q.remove(i).push(x);
    assert forall|a: int, b: int| 0 <= a < b < w.len() implies (#[trigger] w[a]).0 != (
    #[trigger] w[b]).0 by {
        let a1 = if a < i {
            a
        } else {
            a + 1
        };
        assert(w[a] == q[a1]);
        if b < w.len() - 1 {
            let b1 = if b < i {
                b
            } else {
                b + 1
            };
            assert(w[b] == q[b1]);
        } else {
            assert(q[i].0 == w[b].0);
            if a1 < i {
                assert(q[a1].0 != q[i].0);
            } else {
                assert(q[i].0 != q[a1].0);
            }
        }
    }
}

/// A waiting key stays one request, at the higher of the two priorities.
pub proof fn push_upgrades(q: Seq<(Seq<u8>, HealPriority)>, key: Seq<u8>, prio: HealPriority)
    requires
        no_doubles(q),
        waits(q, key),
    ensures
        ({
            let w = pushed(q, key, prio);
            &&& w.len() == q.len()
            &&& waits(w, key)
            &&& w[place(w, key)].1.rank() == (if q[place(q, key)].1.rank() >= prio.rank() {
                q[place(q, key)].1.rank()
            } else {
                prio.rank()
            })
        }),
{
    let i = place(q, key);
    let w = pushed(q, key, prio);
    if q[i].1.rank() < prio.rank() {
        lemma_removed_no_doubles(q, i, (key, prio));
        let last = w.len() - 1;
        assert(w[last] == (key, prio));
        let p = place(w, key);
        assert(w[p].0 == key);
        assert(p == last);
    }
}

/// Requests of one priority are served in order of arrival.
pub proof fn equal_priorities_are_fifo(
    q: Seq<(Seq<u8>, HealPriority)>,
    i: int,
    j: int,
    next: int,
)
    requires
        0 <= i < j < q.len(),
        q[i].1 == q[j].1,
        is_next(q, next),
    ensures
        next != j,
{
}

/// A new request waits behind all others while there is room for it, and changes nothing of
/// them; a full queue of a hundred thousand takes none.
pub proof fn new_requests_wait(
    q: Seq<(Seq<u8>, HealPriority)>,
    key: Seq<u8>,
    prio: HealPriority,
)
    requires
        forall|i: int| 0 <= i < q.len() ==> (#[trigger] q[i]).0 != key,
    ensures
        q.len() < 100_000 ==> pushed(q, key, prio) == q.push((key, prio)),
        q.len() >= 100_000 ==> pushed(q, key, prio) == q,
{
}

/// A request for a waiting key keeps its place unless it is more urgent, and then waits once,
/// behind all others, under the new priority; a full queue does not stop that.
pub proof fn waiting_keys_wait_once(
    q: Seq<(Seq<u8>, HealPriority)>,
    i: int,
    prio: HealPriority,
)
    requires
        no_doubles(q),
        0 <= i < q.len(),
    ensures
        prio == q[i].1 ==> pushed(q, q[i].0, prio) == q,
        prio is Low ==> pushed(q, q[i].0, prio) == q,
        q[i].1 is Urgent ==> pushed(q, q[i].0, prio) == q,
        prio is Normal && (q[i].1 is High) ==> pushed(q, q[i].0, prio) == q,
        prio is Urgent && !(q[i].1 is Urgent) ==> pushed(q, q[i].0, prio) == q.remove(i).push(
            (q[i].0, prio),
        ),
        prio is High && (q[i].1 is Normal || q[i].1 is Low) ==> pushed(q, q[i].0, prio) == q.remove(
            i,
        ).push((q[i].0, prio)),
        prio is Normal && q[i].1 is Low ==> pushed(q, q[i].0, prio) == q.remove(i).push(
            (q[i].0, prio),
        ),
{
    let key = q[i].0;
    assert(waits(q, key));
    let p = place(q, key);
    assert(q[p].0 == key);
    assert(p == i);
}

/// The next request is the most urgent one: an urgent one before a high one, a high one before
/// a normal one, and a low one last.
pub proof fn urgent_requests_come_first(q: Seq<(Seq<u8>, HealPriority)>, i: int, j: int)
    requires
        is_next(q, i),
        0 <= j < q.len(),
    ensures
        q[j].1 is Urgent ==> q[i].1 is Urgent,
        q[j].1 is High ==> q[i].1 is Urgent || q[i].1 is High,
        q[j].1 is Normal ==> !(q[i].1 is Low),
        q[j].1 == q[i].1 ==> i <= j,
{
    assert(q[j].1.rank() <= q[i].1.rank());
    if j < i {
        assert(q[j].1.rank() < q[i].1.rank());
    }
}

} // verus!
