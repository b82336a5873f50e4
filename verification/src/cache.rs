//! A fast disk in front of the pool, for reads.
//!
//! Reads try the cache first and fill it from the pool. A bad copy is dropped and read
//! again from the pool. Writes go through. Whole segments are evicted, the oldest first.
//! Reads of one key at the same time become one read: a leader does it, the others wait.
use vstd::prelude::*;
use vstd::string::*;
use crate::domain::{DomainError, DomainResult, ErrorView};
use crate::domain;
use crate::text;

verus! {

/// What is kept in the cache.
#[derive(Clone, Copy, Debug, PartialEq, Eq, Structural)]
pub struct CacheConfig {
    /// the budget in bytes; nothing is evicted at zero
    pub max_bytes: u64,
    /// smaller bodies are not cached
    pub min_size: usize,
}

impl Default for CacheConfig {
    fn default() -> (r: Self)
        ensures
            r.max_bytes == 0,
            r.min_size == 4096,
    {
        CacheConfig { max_bytes: 0, min_size: 4096 }
    }
}

/// Where a read through the cache stands.
#[derive(Clone, Copy, Debug, PartialEq, Eq, Structural)]
pub enum TierPhase {
    /// the cache was asked
    Cache,
    /// a bad copy is being dropped
    Drop,
    /// the pool was asked
    Pool,
    /// the body is being put into the cache
    Fill,
    Done,
}

/// A read through the cache.
#[derive(Debug)]
pub struct TierRead {
    pub min_size: usize,
    pub phase: TierPhase,
    /// the body that is being put into the cache
    pub body: Vec<u8>,
}

/// What happened.
#[derive(Debug)]
pub enum TierEvent {
    /// the cache or the pool answered
    Answer(DomainResult<Vec<u8>>),
    /// the copy was dropped, or could not be
    Dropped,
    /// the body was put into the cache, or could not be
    Filled(bool),
}

/// What to do next.
#[derive(Debug)]
pub enum TierAction {
    AskCache,
    DropCopy,
    AskPool,
    /// put the body into the cache
    Fill(Vec<u8>),
    Return(DomainResult<Vec<u8>>),
}

/// Changes of the counters.
#[derive(Clone, Copy, Debug, PartialEq, Eq, Structural)]
pub struct TierCounts {
    pub hits: u64,
    pub misses: u64,
    pub self_heals: u64,
    pub populated_bytes: u64,
}

pub open spec fn no_counts() -> TierCounts {
    TierCounts { hits: 0, misses: 0, self_heals: 0, populated_bytes: 0 }
}

pub ghost struct TierView {
    pub min_size: nat,
    pub phase: TierPhase,
    pub body: Seq<u8>,
}

pub ghost enum TierEventView {
    Answer(Result<Seq<u8>, ErrorView>),
    Dropped,
    Filled(bool),
}

pub ghost enum TierActionView {
    AskCache,
    DropCopy,
    AskPool,
    Fill(Seq<u8>),
    Return(Result<Seq<u8>, ErrorView>),
}

impl View for TierRead {
    type V = TierView;

    open spec fn view(&self) -> TierView {
        TierView { min_size: self.min_size as nat, phase: self.phase, body: self.body@ }
    }
}

impl View for TierEvent {
    type V = TierEventView;

    open spec fn view(&self) -> TierEventView {
        match *self {
            TierEvent::Answer(r) => TierEventView::Answer(domain::bytes_result(r)),
            TierEvent::Dropped => TierEventView::Dropped,
            TierEvent::Filled(ok) => TierEventView::Filled(ok),
        }
    }
}

impl View for TierAction {
    type V = TierActionView;

    open spec fn view(&self) -> TierActionView {
        match *self {
            TierAction::AskCache => TierActionView::AskCache,
            TierAction::DropCopy => TierActionView::DropCopy,
            TierAction::AskPool => TierActionView::AskPool,
            TierAction::Fill(b) => TierActionView::Fill(b@),
            TierAction::Return(r) => TierActionView::Return(domain::bytes_result(r)),
        }
    }
}

/// What an event out of turn is answered with.
pub open spec fn out_of_turn() -> TierActionView {
    TierActionView::Return(Err(ErrorView::Io("cache: unexpected answer"@)))
}

impl TierView {
    pub open spec fn at(self, phase: TierPhase) -> TierView {
        TierView { phase, ..self }
    }

    /// The next state, what to do, and what to count.
    pub open spec fn step(self, ev: TierEventView) -> (TierView, TierActionView, TierCounts) {
        match (self.phase, ev) {
            (TierPhase::Cache, TierEventView::Answer(r)) => match r {
                Ok(v) => (
                    self.at(TierPhase::Done),
                    TierActionView::Return(Ok(v)),
                    TierCounts { hits: 1, ..no_counts() },
                ),
                Err(ErrorView::NotFound) => (
                    self.at(TierPhase::Pool),
                    TierActionView::AskPool,
                    TierCounts { misses: 1, ..no_counts() },
                ),
                Err(_) => (
                    self.at(TierPhase::Drop),
                    TierActionView::DropCopy,
                    TierCounts { self_heals: 1, ..no_counts() },
                ),
            },
            (TierPhase::Drop, TierEventView::Dropped) => (
                self.at(TierPhase::Pool),
                TierActionView::AskPool,
                TierCounts { misses: 1, ..no_counts() },
            ),
            (TierPhase::Pool, TierEventView::Answer(r)) => match r {
                Ok(v) => if v.len() < self.min_size {
                    (self.at(TierPhase::Done), TierActionView::Return(Ok(v)), no_counts())
                } else {
                    (
                        TierView { phase: TierPhase::Fill, body: v, ..self },
                        TierActionView::Fill(v),
                        no_counts(),
                    )
                },
                Err(e) => (self.at(TierPhase::Done), TierActionView::Return(Err(e)), no_counts()),
            },
            (TierPhase::Fill, TierEventView::Filled(ok)) => (
                TierView { phase: TierPhase::Done, body: Seq::empty(), ..self },
                TierActionView::Return(Ok(self.body)),
                TierCounts {
                    populated_bytes: if ok {
                        self.body.len() as u64
                    } else {
                        0
                    },
                    ..no_counts()
                },
            ),
            _ => (self.at(TierPhase::Done), out_of_turn(), no_counts()),
        }
    }
}

fn nothing() -> (r: TierCounts)
    ensures
        r == no_counts(),
{
    TierCounts { hits: 0, misses: 0, self_heals: 0, populated_bytes: 0 }
}

fn copy_of(b: &Vec<u8>) -> (r: Vec<u8>)
    ensures
        r@ == b@,
{
    crate::bytes::copy_range(b.as_slice(), 0, b.len())
}

impl TierRead {
    /// Starts a read: the cache is asked first.
    pub fn begin(cfg: &CacheConfig) -> (r: (Self, TierAction))
        ensures
            r.0@ == (TierView {
                min_size: cfg.min_size as nat,
                phase: TierPhase::Cache,
                body: Seq::empty(),
            }),
            r.1@ == TierActionView::AskCache,
    {
        (
            TierRead { min_size: cfg.min_size, phase: TierPhase::Cache, body: Vec::new() },
            TierAction::AskCache,
        )
    }

    /// Takes an event in; returns what to do and what to count.
    pub fn advance(&mut self, ev: TierEvent) -> (r: (TierAction, TierCounts))
        ensures
            (final(self)@, r.0@, r.1) == old(self)@.step(ev@),
    {
        match self.phase {
            TierPhase::Cache => match ev {
                TierEvent::Answer(Ok(v)) => {
                    self.phase = TierPhase::Done;
                    (
                        TierAction::Return(Ok(v)),
                        TierCounts { hits: 1, misses: 0, self_heals: 0, populated_bytes: 0 },
                    )
                },
                TierEvent::Answer(Err(DomainError::NotFound)) => {
                    self.phase = TierPhase::Pool;
                    (
                        TierAction::AskPool,
                        TierCounts { hits: 0, misses: 1, self_heals: 0, populated_bytes: 0 },
                    )
                },
                TierEvent::Answer(Err(_)) => {
                    self.phase = TierPhase::Drop;
                    (
                        TierAction::DropCopy,
                        TierCounts { hits: 0, misses: 0, self_heals: 1, populated_bytes: 0 },
                    )
                },
                _ => self.confused(),
            },
            TierPhase::Drop => match ev {
                TierEvent::Dropped => {
                    self.phase = TierPhase::Pool;
                    (
                        TierAction::AskPool,
                        TierCounts { hits: 0, misses: 1, self_heals: 0, populated_bytes: 0 },
                    )
                },
                _ => self.confused(),
            },
            TierPhase::Pool => match ev {
                TierEvent::Answer(Ok(v)) => {
                    if v.len() < self.min_size {
                        self.phase = TierPhase::Done;
                        (TierAction::Return(Ok(v)), nothing())
                    } else {
                        self.phase = TierPhase::Fill;
                        self.body = copy_of(&v);
                        (TierAction::Fill(v), nothing())
                    }
                },
                TierEvent::Answer(Err(e)) => {
                    self.phase = TierPhase::Done;
                    (TierAction::Return(Err(e)), nothing())
                },
                _ => self.confused(),
            },
            TierPhase::Fill => match ev {
                TierEvent::Filled(ok) => {
                    self.phase = TierPhase::Done;
                    let body = copy_of(&self.body);
                    self.body = Vec::new();
                    let n: u64 = if ok {
                        body.len() as u64
                    } else {
                        0
                    };
                    (
                        TierAction::Return(Ok(body)),
                        TierCounts { hits: 0, misses: 0, self_heals: 0, populated_bytes: n },
                    )
                },
                _ => self.confused(),
            },
            TierPhase::Done => self.confused(),
        }
    }

    fn confused(&mut self) -> (r: (TierAction, TierCounts))
        ensures
            final(self)@ == old(self)@.at(TierPhase::Done),
            r.0@ == out_of_turn(),
            r.1 == no_counts(),
    {
        self.phase = TierPhase::Done;
        (
            TierAction::Return(Err(DomainError::Io("cache: unexpected answer".to_owned()))),
            nothing(),
        )
    }
}

/// How many events a phase is away from the end, at most.
pub open spec fn steps_left(p: TierPhase) -> nat {
    match p {
        TierPhase::Cache => 4,
        TierPhase::Drop => 3,
        TierPhase::Pool => 2,
        TierPhase::Fill => 1,
        TierPhase::Done => 0,
    }
}

/// Every event brings a read nearer to its end.
pub proof fn reads_end(v: TierView, ev: TierEventView)
    requires
        v.phase != TierPhase::Done,
    ensures
        steps_left(v.step(ev).0.phase) < steps_left(v.phase),
        v.step(ev).0.phase == TierPhase::Done <==> v.step(ev).1 is Return,
{
}

/// A copy that cannot be read is dropped, and what is returned in its place is what the
/// pool answers, whether or not the cache takes it up again.
pub proof fn bad_copies_heal(
    v: TierView,
    e: ErrorView,
    answer: Result<Seq<u8>, ErrorView>,
    filled: bool,
)
    requires
        v.phase == TierPhase::Cache,
        e != ErrorView::NotFound,
    ensures
        ({
            let a = v.step(TierEventView::Answer(Err(e)));
            let b = a.0.step(TierEventView::Dropped);
            let c = b.0.step(TierEventView::Answer(answer));
            let d = c.0.step(TierEventView::Filled(filled));
            &&& a.1 == TierActionView::DropCopy
            &&& a.2.self_heals == 1
            &&& b.1 == TierActionView::AskPool
            &&& c.1 == TierActionView::Return(answer) || (c.1 is Fill && d.1
                == TierActionView::Return(answer))
        }),
{
}

/// A body smaller than the limit never reaches the cache.
pub proof fn small_bodies_stay_out(v: TierView, ev: TierEventView, b: Seq<u8>)
    requires
        v.step(ev).1 == TierActionView::Fill(b),
    ensures
        b.len() >= v.min_size,
{
}

/// Whether a body that was written is put into the cache too.
pub fn caches(cfg: &CacheConfig, len: usize) -> (r: bool)
    ensures
        r == (len >= cfg.min_size),
{
    len >= cfg.min_size
}

/// The mark that an eviction goes down to: nine tenths of the budget.
pub open spec fn low_mark(max: u64) -> u64 {
    (max - max / 10) as u64
}

/// Whether to evict a segment: an eviction begins above the budget and goes on above the
/// low mark.
pub open spec fn evicts(bytes: u64, max: u64, evicting: bool) -> bool {
    max > 0 && (if evicting {
        bytes > low_mark(max)
    } else {
        bytes > max
    })
}

pub fn needs_eviction(bytes: u64, max: u64, evicting: bool) -> (r: bool)
    ensures
        r == evicts(bytes, max, evicting),
{
    max > 0 && (if evicting {
        bytes > max - max / 10
    } else {
        bytes > max
    })
}

/// The bytes in the cache once a segment was evicted.
pub open spec fn after_eviction(bytes: u64, freed: u64) -> u64 {
    if freed < bytes {
        (bytes - freed) as u64
    } else {
        0
    }
}

/// Counts an evicted segment; returns the bytes left and whether to go on. A segment of no
/// bytes means that there is none to evict.
pub fn evicted(bytes: u64, max: u64, freed: u64) -> (r: (u64, bool))
    ensures
        r.0 == after_eviction(bytes, freed),
        r.1 == (freed > 0 && evicts(after_eviction(bytes, freed), max, true)),
{
    let left: u64 = if freed < bytes {
        bytes - freed
    } else {
        0
    };
    (left, freed > 0 && needs_eviction(left, max, true))
}

/// The bytes left after evicting segments of the given sizes, as far as eviction goes.
pub open spec fn bytes_left(bytes: u64, max: u64, freed: Seq<u64>) -> u64
    decreases freed.len(),
{
    if freed.len() == 0 || !evicts(bytes, max, true) {
        bytes
    } else {
        bytes_left(after_eviction(bytes, freed[0]), max, freed.skip(1))
    }
}

/// The bytes of several segments.
pub open spec fn sum_of(freed: Seq<u64>) -> nat
    decreases freed.len(),
{
    if freed.len() == 0 {
        0
    } else {
        freed[0] as nat + sum_of(freed.skip(1))
    }
}

/// Where the segments hold enough, eviction brings the cache down to the low mark.
pub proof fn eviction_keeps_the_budget(bytes: u64, max: u64, freed: Seq<u64>)
    requires
        max > 0,
        sum_of(freed) >= bytes,
    ensures
        bytes_left(bytes, max, freed) <= low_mark(max),
        low_mark(max) <= max,
    decreases freed.len(),
{
    if freed.len() > 0 && evicts(bytes, max, true) {
        eviction_keeps_the_budget(after_eviction(bytes, freed[0]), max, freed.skip(1));
    }
}

/// What the leader of a shared read leaves for the others.
pub fn share(res: &DomainResult<Vec<u8>>) -> (r: Result<Vec<u8>, String>)
    ensures
        match *res {
            Ok(v) => r matches Ok(x) && x@ == v@,
            Err(e) => r matches Err(t) && t@ == domain::error_text(e@),
        },
{
    match res {
        Ok(v) => Ok(copy_of(v)),
        Err(e) => Err(e.message()),
    }
}

/// What a follower of a shared read returns.
pub open spec fn followed(r: Result<Seq<u8>, Seq<char>>) -> Result<Seq<u8>, ErrorView> {
    match r {
        Ok(v) => Ok(v),
        Err(t) => if t == domain::error_text(ErrorView::NotFound) {
            Err(ErrorView::NotFound)
        } else {
            Err(ErrorView::Io("coalesced read failed: "@ + t))
        },
    }
}

pub fn follow(shared: Result<Vec<u8>, String>) -> (r: DomainResult<Vec<u8>>)
    ensures
        domain::bytes_result(r) == followed(
            match shared {
                Ok(v) => Ok(v@),
                Err(t) => Err(t@),
            },
        ),
{
    match shared {
        Ok(v) => Ok(v),
        Err(t) => {
            if text::same_text(t.as_str(), "block not found") {
                Err(DomainError::NotFound)
            } else {
                let mut m = "coalesced read failed: ".to_owned();
                m.append(t.as_str());
                Err(DomainError::Io(m))
            }
        },
    }
}

/// Followers get the leader's body, and miss what the leader misses.
pub proof fn followers_see_the_same(res: Result<Seq<u8>, ErrorView>)
    ensures
        ({
            let shared = match res {
                Ok(v) => Ok::<Seq<u8>, Seq<char>>(v),
                Err(e) => Err(domain::error_text(e)),
            };
            &&& res matches Ok(v) ==> followed(shared) == Ok::<Seq<u8>, ErrorView>(v)
            &&& res matches Err(e) ==> followed(shared) is Err
            &&& res == Err::<Seq<u8>, ErrorView>(ErrorView::NotFound) ==> followed(shared) == Err::<
                Seq<u8>,
                ErrorView,
            >(ErrorView::NotFound)
        }),
{
}

/// What the cache answers with is what is returned, to the last byte; a read that the cache
/// serves asks nothing else and counts as a hit.
pub proof fn hits_are_returned_whole(cfg: &CacheConfig, begun: (TierRead, TierAction), body: Seq<u8>)
    requires
        call_ensures(TierRead::begin, (cfg,), begun),
    ensures
        begun.1@ is AskCache,
        begun.0@.step(TierEventView::Answer(Ok(body))).1 == TierActionView::Return(Ok(body)),
        begun.0@.step(TierEventView::Answer(Ok(body))).2 == (TierCounts {
            hits: 1,
            misses: 0,
            self_heals: 0,
            populated_bytes: 0,
        }),
{
}

/// A read that the cache cannot serve ends with what the pool answers, to the last byte.  A
/// copy that is there and cannot be read is dropped first.  A body that is large enough is
/// offered to the cache, as the pool gave it, and returned whether or not the cache takes it;
/// a smaller one is returned at once.
pub proof fn misses_are_served_by_the_pool(
    cfg: &CacheConfig,
    begun: (TierRead, TierAction),
    e: ErrorView,
    answer: Result<Seq<u8>, ErrorView>,
    filled: bool,
)
    requires
        call_ensures(TierRead::begin, (cfg,), begun),
    ensures
        ({
            let first = begun.0@.step(TierEventView::Answer(Err(e)));
            let asked = if e is NotFound {
                first
            } else {
                first.0.step(TierEventView::Dropped)
            };
            let told = asked.0.step(TierEventView::Answer(answer));
            let end = told.0.step(TierEventView::Filled(filled));
            &&& first.1 is DropCopy <==> !(e is NotFound)
            &&& first.2.self_heals == (if e is NotFound {
                0u64
            } else {
                1
            })
            &&& asked.1 is AskPool
            &&& asked.2.misses == 1
            &&& first.2.hits == 0 && asked.2.hits == 0 && told.2.hits == 0
            &&& match answer {
                Err(x) => told.1 == TierActionView::Return(Err(x)),
                Ok(b) => if b.len() < cfg.min_size {
                    told.1 == TierActionView::Return(Ok(b))
                } else {
                    &&& told.1 == TierActionView::Fill(b)
                    &&& end.1 == TierActionView::Return(Ok(b))
                    &&& end.2.populated_bytes == (if filled {
                        b.len() as u64
                    } else {
                        0
                    })
                },
            }
        }),
{
}

/// A step of a read through the cache: the event and the action that it led to.
pub ghost struct TierMoment {
    pub state: TierView,
    pub action: TierActionView,
    pub event: TierEventView,
}

/// Whether one moment follows another.
pub open spec fn tier_follows(a: TierMoment, b: TierMoment) -> bool {
    let next = a.state.step(a.event);
    b.state == next.0 && b.action == next.1
}

/// The moments of a read: each event leads from one to the next.
pub open spec fn is_tier_read(min_size: nat, run: Seq<TierMoment>) -> bool {
    &&& run.len() > 0
    &&& run[0].state == (TierView { min_size, phase: TierPhase::Cache, body: Seq::empty() })
    &&& run[0].action is AskCache
    &&& forall|i: int| 0 < i < run.len() ==> tier_follows(run[i - 1], #[trigger] run[i])
}

/// Whether one of the first `i` events brought a body.
pub open spec fn was_answered(run: Seq<TierMoment>, i: int, body: Seq<u8>) -> bool {
    exists|j: int| 0 <= j < i && (#[trigger] run[j]).event == TierEventView::Answer(Ok(body))
}

proof fn lemma_still_answered(run: Seq<TierMoment>, i: int, body: Seq<u8>)
    requires
        0 < i <= run.len(),
        was_answered(run, i - 1, body) || run[i - 1].event == TierEventView::Answer(Ok(body)),
    ensures
        was_answered(run, i, body),
{
    if was_answered(run, i - 1, body) {
        let j = choose|j: int|
            0 <= j < i - 1 && (#[trigger] run[j]).event == TierEventView::Answer(Ok(body));
        assert(run[j].event == TierEventView::Answer(Ok(body)));
    } else {
        assert(run[i - 1].event == TierEventView::Answer(Ok(body)));
    }
}

proof fn lemma_tier_step(a: TierMoment, b: TierMoment)
    requires
        tier_follows(a, b),
    ensures
        b.state.min_size == a.state.min_size,
        b.state.phase is Fill ==> a.event == TierEventView::Answer(Ok(b.state.body))
            && b.state.body.len() >= a.state.min_size,
        b.action matches TierActionView::Fill(x) ==> a.event == TierEventView::Answer(Ok(x))
            && x.len() >= a.state.min_size,
        b.action matches TierActionView::Return(Ok(x)) ==> a.event == TierEventView::Answer(Ok(x))
            || (a.state.phase is Fill && x == a.state.body),
{
}

proof fn lemma_tier_read(min_size: nat, run: Seq<TierMoment>, i: int)
    requires
        is_tier_read(min_size, run),
        0 <= i < run.len(),
    ensures
        run[i].state.min_size == min_size,
        run[i].state.phase is Fill ==> was_answered(run, i, run[i].state.body),
    decreases i,
{
    if i > 0 {
        lemma_tier_read(min_size, run, i - 1);
        assert(tier_follows(run[i - 1], run[i]));
        lemma_tier_step(run[i - 1], run[i]);
        if run[i].state.phase is Fill {
            lemma_still_answered(run, i, run[i].state.body);
        }
    }
}

/// Whatever body a read returns, or offers to the cache, is one that the cache or the pool
/// answered during that read, whole.
pub proof fn bodies_come_from_answers(min_size: nat, run: Seq<TierMoment>, i: int)
    requires
        is_tier_read(min_size, run),
        0 <= i < run.len(),
    ensures
        run[i].action matches TierActionView::Return(Ok(b)) ==> was_answered(run, i, b),
        run[i].action matches TierActionView::Fill(b) ==> was_answered(run, i, b) && b.len()
            >= min_size,
{
    if i > 0 {
        lemma_tier_read(min_size, run, i - 1);
        assert(tier_follows(run[i - 1], run[i]));
        lemma_tier_step(run[i - 1], run[i]);
        if let TierActionView::Return(Ok(b)) = run[i].action {
            lemma_still_answered(run, i, b);
        }
        if let TierActionView::Fill(b) = run[i].action {
            lemma_still_answered(run, i, b);
        }
    }
}

/// A body that is written goes into the cache exactly from the configured size on.
pub proof fn writes_fill_by_size(cfg: &CacheConfig, len: usize, r: bool)
    requires
        call_ensures(caches, (cfg, len), r),
    ensures
        len >= cfg.min_size ==> r,
        len < cfg.min_size ==> !r,
{
}

/// An eviction begins only above the budget, goes on down to nine tenths of it, and counts
/// what each segment freed; without a budget, and when nothing more can be freed, nothing is
/// evicted.
pub proof fn evictions_begin_and_end(
    bytes: u64,
    max: u64,
    freed: u64,
    begins: bool,
    goes_on: bool,
    after: (u64, bool),
)
    requires
        call_ensures(needs_eviction, (bytes, max, false), begins),
        call_ensures(needs_eviction, (bytes, max, true), goes_on),
        call_ensures(evicted, (bytes, max, freed), after),
    ensures
        begins <==> max > 0 && bytes > max,
        max == 0 ==> !goes_on && !after.1,
        10 * bytes <= 9 * max ==> !goes_on,
        max > 0 && 10 * bytes >= 9 * max + 10 ==> goes_on,
        freed <= bytes ==> after.0 + freed == bytes,
        freed > bytes ==> after.0 == 0,
        freed == 0 ==> !after.1,
        freed > 0 && max > 0 && 10 * after.0 >= 9 * max + 10 ==> after.1,
        10 * after.0 <= 9 * max ==> !after.1,
{
}

/// A follower that does not get a body is told why the leader failed.
pub proof fn followers_are_told_why(e: ErrorView)
    requires
        domain::error_text(e) != domain::error_text(ErrorView::NotFound),
    ensures
        followed(Err(domain::error_text(e))) == Err::<Seq<u8>, ErrorView>(
            ErrorView::Io("coalesced read failed: "@ + domain::error_text(e)),
        ),
{
}

} // verus!
