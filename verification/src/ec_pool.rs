//! Reading and repairing erasure-coded objects across shards.
use vstd::prelude::*;
use vstd::string::*;
use crate::domain::{DomainError, DomainResult, ShardId};
use crate::domain;
use crate::erasure::{ec_decode, ec_repair_pieces};
use crate::erasure;
use crate::piece::{parse_piece_header, PieceHeader};
use crate::piece;
use crate::pool;
use crate::text;

verus! {

/// Slots with a body put where its envelope says, if that place is free.
pub open spec fn filled(slots: Seq<Option<Seq<u8>>>, body: Seq<u8>) -> Seq<Option<Seq<u8>>> {
    match piece::parsed_piece(body) {
        Some(h) => if h.piece_idx < slots.len() && slots[h.piece_idx as int] is None {
            slots.update(h.piece_idx as int, Some(body))
        } else {
            slots
        },
        None => slots,
    }
}

/// The same for several bodies in turn.
pub open spec fn filled_all(slots: Seq<Option<Seq<u8>>>, bodies: Seq<Seq<u8>>) -> Seq<
    Option<Seq<u8>>,
>
    decreases bodies.len(),
{
    if bodies.len() == 0 {
        slots
    } else {
        filled(filled_all(slots, bodies.drop_last()), bodies.last())
    }
}

/// `n` free slots.
pub open spec fn free_slots(n: nat) -> Seq<Option<Seq<u8>>> {
    Seq::new(n, |i: int| None)
}

/// Puts a body where its envelope says, if that place is free.
pub fn fill_slot(slots: &mut Vec<Option<Vec<u8>>>, body: Vec<u8>)
    ensures
        erasure::slot_views(final(slots)@) == filled(erasure::slot_views(old(slots)@), body@),
        final(slots)@.len() == old(slots)@.len(),
{
    let ghost before = slots@;
    match parse_piece_header(body.as_slice()) {
        Some(h) => {
            let i: usize = h.piece_idx as usize;
            if i < slots.len() && slots[i].is_none() {
                slots[i] = Some(body);
                assert(erasure::slot_views(slots@) =~= erasure::slot_views(before).update(
                    i as int,
                    Some(body@),
                ));
            }
        },
        None => {},
    }
}

fn empty_slots(n: usize) -> (r: Vec<Option<Vec<u8>>>)
    ensures
        erasure::slot_views(r@) == free_slots(n as nat),
        r@.len() == n,
{
    let mut out: Vec<Option<Vec<u8>>> = Vec::new();
    let mut i: usize = 0;
    while i < n
        invariant
            i <= n,
            out@.len() == i,
            forall|j: int| 0 <= j < i ==> (#[trigger] out@[j]) is None,
        decreases n - i,
    {
        out.push(None);
        i = i + 1;
    }
    assert(erasure::slot_views(out@) =~= free_slots(n as nat));
    out
}

fn fill_slots(slots: &mut Vec<Option<Vec<u8>>>, bodies: Vec<Vec<u8>>)
    ensures
        erasure::slot_views(final(slots)@) == filled_all(
            erasure::slot_views(old(slots)@),
            erasure::views(bodies@),
        ),
        final(slots)@.len() == old(slots)@.len(),
{
    let ghost start = erasure::slot_views(slots@);
    let ghost bv = erasure::views(bodies@);
    let mut i: usize = 0;
    while i < bodies.len()
        invariant
            i <= bodies@.len(),
            bv == erasure::views(bodies@),
            start == erasure::slot_views(old(slots)@),
            slots@.len() == old(slots)@.len(),
            erasure::slot_views(slots@) == filled_all(start, bv.take(i as int)),
        decreases bodies@.len() - i,
    {
        assert(bv.take(i + 1).drop_last() =~= bv.take(i as int));
        assert(bv.take(i + 1).last() == bodies@[i as int]@);
        let copy = crate::bytes::copy_range(bodies[i].as_slice(), 0, bodies[i].len());
        assert(copy@ =~= bodies@[i as int]@);
        fill_slot(slots, copy);
        i = i + 1;
    }
    assert(bv.take(bodies@.len() as int) =~= bv);
}

pub fn count_filled(slots: &Vec<Option<Vec<u8>>>) -> (r: usize)
    ensures
        r == erasure::present(erasure::slot_views(slots@)),
        r <= slots@.len(),
{
    let ghost sv = erasure::slot_views(slots@);
    let mut n: usize = 0;
    let mut i: usize = 0;
    while i < slots.len()
        invariant
            i <= slots@.len(),
            n <= i,
            sv == erasure::slot_views(slots@),
            n == erasure::present(sv.take(i as int)),
        decreases slots@.len() - i,
    {
        assert(sv.take(i + 1).drop_last() =~= sv.take(i as int));
        assert(sv[i as int] is Some <==> slots@[i as int] is Some);
        if slots[i].is_some() {
            n = n + 1;
        }
        i = i + 1;
    }
    assert(sv.take(slots@.len() as int) =~= sv);
    n
}

fn first_filled(slots: &Vec<Option<Vec<u8>>>, k: usize) -> (r: bool)
    requires
        k <= slots@.len(),
    ensures
        r == erasure::all_filled(erasure::slot_views(slots@), k as nat),
{
    let ghost sv = erasure::slot_views(slots@);
    let mut i: usize = 0;
    while i < k
        invariant
            i <= k <= slots@.len(),
            sv == erasure::slot_views(slots@),
            forall|j: int| 0 <= j < i ==> (#[trigger] sv[j]) is Some,
        decreases k - i,
    {
        if slots[i].is_none() {
            assert(sv[i as int] is None);
            return false;
        }
        i = i + 1;
    }
    true
}

/// Filling slots of an object with its own pieces keeps them slots of that
/// object.
pub proof fn fill_keeps_pieces(
    slots: Seq<Option<Seq<u8>>>,
    data: Seq<u8>,
    k: nat,
    m: nat,
    i: int,
)
    requires
        erasure::codec_exists(k, m),
        data.len() <= u64::MAX,
        erasure::parity_fits(data, k, m),
        erasure::slots_from(slots, erasure::ec_pieces(data, k, m)),
        0 <= i < k + m,
        piece::parsed_piece(erasure::ec_pieces(data, k, m)[i]) matches Some(h) && h.piece_idx == i,
    ensures
        erasure::slots_from(
            filled(slots, erasure::ec_pieces(data, k, m)[i]),
            erasure::ec_pieces(data, k, m),
        ),
        filled(slots, erasure::ec_pieces(data, k, m)[i])[i] is Some,
{
    let w = filled(slots, erasure::ec_pieces(data, k, m)[i]);
    assert forall|j: int| 0 <= j < w.len() implies match #[trigger] w[j] {
        Some(p) => p == erasure::ec_pieces(data, k, m)[j],
        None => true,
    } by {
        assert(j != i ==> w[j] == slots[j]);
        assert(slots[j] is Some ==> slots[j]->0 == erasure::ec_pieces(data, k, m)[j]);
    }
}

/// Where a read of a possibly erasure-coded object stands.
#[derive(Clone, Copy, Debug, PartialEq, Eq, Structural)]
pub enum EcPhase {
    /// target number so much was asked
    Probe(usize),
    /// no target had anything; another shard was asked
    Sweep(usize),
    /// the shards of the missing data pieces were asked
    Data,
    /// the shards of the missing parity pieces were asked
    Parity,
    /// another shard was asked for a stray piece
    Strays(usize),
    Done,
}

/// A read of a possibly erasure-coded object.
#[derive(Debug)]
pub struct EcRead {
    pub targets: Vec<ShardId>,
    pub rest: Vec<ShardId>,
    pub phase: EcPhase,
    pub k: usize,
    pub m: usize,
    /// the target whose piece was read first
    pub probe: usize,
    pub slots: Vec<Option<Vec<u8>>>,
    pub last_err: DomainError,
    /// pieces had to be reconstructed
    pub degraded: bool,
}

/// [`EcRead`] by value.
pub ghost struct EcView {
    pub targets: Seq<ShardId>,
    pub rest: Seq<ShardId>,
    pub phase: EcPhase,
    pub k: nat,
    pub m: nat,
    pub probe: nat,
    pub slots: Seq<Option<Seq<u8>>>,
    pub last_err: domain::ErrorView,
    pub degraded: bool,
}

impl View for EcRead {
    type V = EcView;

    open spec fn view(&self) -> EcView {
        EcView {
            targets: self.targets@,
            rest: self.rest@,
            phase: self.phase,
            k: self.k as nat,
            m: self.m as nat,
            probe: self.probe as nat,
            slots: erasure::slot_views(self.slots@),
            last_err: self.last_err@,
            degraded: self.degraded,
        }
    }
}

/// What came back.
#[derive(Debug)]
pub enum EcEvent {
    Reply(DomainResult<Vec<u8>>),
    /// the bodies that the asked shards had, in order of arrival
    Bodies(Vec<Vec<u8>>),
}

/// [`EcEvent`] by value.
pub ghost enum EcEventView {
    Reply(Result<Seq<u8>, domain::ErrorView>),
    Bodies(Seq<Seq<u8>>),
}

impl View for EcEvent {
    type V = EcEventView;

    open spec fn view(&self) -> EcEventView {
        match *self {
            EcEvent::Reply(r) => EcEventView::Reply(domain::bytes_result(r)),
            EcEvent::Bodies(b) => EcEventView::Bodies(erasure::views(b@)),
        }
    }
}

/// What to do next.
#[derive(Debug)]
pub enum EcAction {
    Ask(ShardId),
    /// ask these shards at once
    AskAll(Vec<ShardId>),
    Finish(DomainResult<Vec<u8>>),
}

/// [`EcAction`] by value.
pub ghost enum EcActionView {
    Ask(ShardId),
    AskAll(Seq<ShardId>),
    Finish(Result<Seq<u8>, domain::ErrorView>),
}

impl View for EcAction {
    type V = EcActionView;

    open spec fn view(&self) -> EcActionView {
        match *self {
            EcAction::Ask(s) => EcActionView::Ask(s),
            EcAction::AskAll(v) => EcActionView::AskAll(v@),
            EcAction::Finish(r) => EcActionView::Finish(domain::bytes_result(r)),
        }
    }
}

/// The pieces that an object is put together from.
pub ghost struct EcSource {
    pub slots: Seq<Option<Seq<u8>>>,
    pub k: nat,
    pub m: nat,
}

/// Whether a read that puts an object together from enough of its own pieces returns that
/// object.
pub open spec fn gives_back(a: EcActionView, from: Option<EcSource>) -> bool {
    match from {
        Some(d) => forall|data: Seq<u8>| #[trigger]
            erasure::recoverable(d.slots, data, d.k, d.m) ==> a == EcActionView::Finish(Ok(data)),
        None => true,
    }
}

/// The shards of the ranks `from..to` whose slot is free, except the probed one.
pub open spec fn open_ranks(v: EcView, from: nat, to: nat) -> Seq<ShardId>
    decreases to,
{
    if to <= from {
        Seq::empty()
    } else {
        let rest = open_ranks(v, from, (to - 1) as nat);
        let r = to - 1;
        if r != v.probe && v.slots[r] is None && r < v.targets.len() {
            rest.push(v.targets[r])
        } else {
            rest
        }
    }
}

impl EcView {
    pub open spec fn at(self, phase: EcPhase) -> EcView {
        EcView { phase, ..self }
    }

    pub open spec fn noted(self, e: domain::ErrorView) -> EcView {
        if e is NotFound {
            self
        } else {
            EcView { last_err: e, ..self }
        }
    }

    pub open spec fn finished(self, r: Result<Seq<u8>, domain::ErrorView>) -> (
        EcView,
        EcActionView,
    ) {
        (
            EcView { phase: EcPhase::Done, slots: Seq::empty(), ..self },
            EcActionView::Finish(r),
        )
    }

    /// Put the object together from what was gathered.
    pub open spec fn decoded(self, degraded: bool) -> (EcView, EcActionView) {
        EcView { degraded: self.degraded || degraded, ..self }.finished(
            erasure::ec_decoded(self.slots, self.k, self.m),
        )
    }

    pub open spec fn probe_from(self, i: int) -> (EcView, EcActionView) {
        if i < self.targets.len() {
            (self.at(EcPhase::Probe(i as usize)), EcActionView::Ask(self.targets[i]))
        } else {
            self.sweep_from(0)
        }
    }

    pub open spec fn sweep_from(self, i: int) -> (EcView, EcActionView) {
        if i < self.rest.len() {
            (self.at(EcPhase::Sweep(i as usize)), EcActionView::Ask(self.rest[i]))
        } else if self.k > 0 && erasure::present(self.slots) >= self.k {
            self.decoded(true)
        } else {
            self.finished(Err(self.last_err))
        }
    }

    pub open spec fn strays_from(self, i: int) -> (EcView, EcActionView) {
        if i < self.rest.len() {
            (self.at(EcPhase::Strays(i as usize)), EcActionView::Ask(self.rest[i]))
        } else {
            self.decoded(true)
        }
    }

    /// A piece was found on target `i`: gather the others.
    pub open spec fn gather(self, i: int, h: PieceHeader, body: Seq<u8>) -> (EcView, EcActionView) {
        let v = EcView {
            phase: EcPhase::Data,
            k: h.k as nat,
            m: h.m as nat,
            probe: i as nat,
            slots: free_slots((h.k + h.m) as nat).update(h.piece_idx as int, Some(body)),
            ..self
        };
        (v, EcActionView::AskAll(open_ranks(v, 0, v.k)))
    }

    /// A piece was found outside the targets.
    pub open spec fn collected(self, h: PieceHeader, body: Seq<u8>) -> EcView {
        let t = (h.k + h.m) as nat;
        let s = if self.slots.len() == t {
            self.slots
        } else {
            free_slots(t)
        };
        EcView {
            k: h.k as nat,
            m: h.m as nat,
            slots: if s[h.piece_idx as int] is None {
                s.update(h.piece_idx as int, Some(body))
            } else {
                s
            },
            ..self
        }
    }

    /// What the end of the sweep puts the object together from, where it does.
    pub open spec fn sweep_source(self, i: int) -> Option<EcSource> {
        if i >= self.rest.len() && self.k > 0 && erasure::present(self.slots) >= self.k {
            Some(EcSource { slots: self.slots, k: self.k, m: self.m })
        } else {
            None
        }
    }

    /// What the end of the search for stray pieces puts the object together from.
    pub open spec fn strays_source(self, i: int) -> Option<EcSource> {
        if i >= self.rest.len() {
            Some(EcSource { slots: self.slots, k: self.k, m: self.m })
        } else {
            None
        }
    }

    /// What a step puts the object together from, where it does.
    pub open spec fn source(self, ev: EcEventView) -> Option<EcSource> {
        match (self.phase, ev) {
            (EcPhase::Probe(i), EcEventView::Reply(Err(_))) => if i + 1 >= self.targets.len() {
                self.sweep_source(0)
            } else {
                None
            },
            (EcPhase::Sweep(i), EcEventView::Reply(Ok(body))) => match piece::parsed_piece(body) {
                None => None,
                Some(h) => self.collected(h, body).sweep_source(i + 1),
            },
            (EcPhase::Sweep(i), EcEventView::Reply(Err(_))) => self.sweep_source(i + 1),
            (EcPhase::Data, EcEventView::Bodies(b)) => {
                let slots = filled_all(self.slots, b);
                if erasure::all_filled(slots, self.k) {
                    Some(EcSource { slots, k: self.k, m: self.m })
                } else {
                    None
                }
            },
            (EcPhase::Parity, EcEventView::Bodies(b)) => {
                let v = EcView { slots: filled_all(self.slots, b), ..self };
                if erasure::present(v.slots) < v.k {
                    v.strays_source(0)
                } else {
                    Some(EcSource { slots: v.slots, k: v.k, m: v.m })
                }
            },
            (EcPhase::Strays(i), EcEventView::Reply(Ok(body))) => (EcView {
                slots: filled(self.slots, body),
                ..self
            }).strays_source(i + 1),
            (EcPhase::Strays(i), EcEventView::Reply(Err(_))) => self.strays_source(i + 1),
            _ => None,
        }
    }

    /// The next state and action.
    pub open spec fn step(self, ev: EcEventView) -> (EcView, EcActionView) {
        match (self.phase, ev) {
            (EcPhase::Probe(i), EcEventView::Reply(Ok(body))) => match piece::parsed_piece(body) {
                None => self.finished(Ok(body)),
                Some(h) => self.gather(i as int, h, body),
            },
            (EcPhase::Probe(i), EcEventView::Reply(Err(e))) => self.noted(e).probe_from(i + 1),
            (EcPhase::Sweep(i), EcEventView::Reply(Ok(body))) => match piece::parsed_piece(body) {
                None => self.finished(Ok(body)),
                Some(h) => self.collected(h, body).sweep_from(i + 1),
            },
            (EcPhase::Sweep(i), EcEventView::Reply(Err(_))) => self.sweep_from(i + 1),
            (EcPhase::Data, EcEventView::Bodies(b)) => {
                let v = EcView { slots: filled_all(self.slots, b), ..self };
                if erasure::all_filled(v.slots, v.k) {
                    v.decoded(false)
                } else {
                    (
                        v.at(EcPhase::Parity),
                        EcActionView::AskAll(open_ranks(v, v.k, v.k + v.m)),
                    )
                }
            },
            (EcPhase::Parity, EcEventView::Bodies(b)) => {
                let v = EcView { slots: filled_all(self.slots, b), ..self };
                if erasure::present(v.slots) < v.k {
                    v.strays_from(0)
                } else {
                    v.decoded(true)
                }
            },
            (EcPhase::Strays(i), EcEventView::Reply(Ok(body))) => (EcView {
                slots: filled(self.slots, body),
                ..self
            }).strays_from(i + 1),
            (EcPhase::Strays(i), EcEventView::Reply(Err(_))) => self.strays_from(i + 1),
            _ => self.finished(Err(self.last_err)),
        }
    }
}

impl EcRead {
    pub open spec fn wf(&self) -> bool {
        &&& self.k <= 255 && self.m <= 255
        &&& self.phase matches EcPhase::Probe(i) ==> i < self.targets.len()
        &&& self.phase matches EcPhase::Sweep(i) ==> i < self.rest.len()
        &&& self.phase matches EcPhase::Strays(i) ==> i < self.rest.len() && self.slots@.len()
            == self.k + self.m
        &&& self.phase is Data || self.phase is Parity ==> self.slots@.len() == self.k + self.m
    }

    fn finished(&mut self, r: DomainResult<Vec<u8>>) -> (a: EcAction)
        requires
            old(self).wf(),
        ensures
            (final(self)@, a@) == old(self)@.finished(domain::bytes_result(r)),
            final(self).wf(),
    {
        self.phase = EcPhase::Done;
        self.slots = Vec::new();
        assert(erasure::slot_views(self.slots@) =~= Seq::empty());
        EcAction::Finish(r)
    }

    fn decoded(&mut self, degraded: bool) -> (a: EcAction)
        requires
            old(self).wf(),
        ensures
            (final(self)@, a@) == old(self)@.decoded(degraded),
            final(self).wf(),
            forall|data: Seq<u8>| #[trigger]
                erasure::recoverable(old(self)@.slots, data, old(self)@.k, old(self)@.m) ==> a@
                    == EcActionView::Finish(Ok(data)),
    {
        let mut taken: Vec<Option<Vec<u8>>> = Vec::new();
        std::mem::swap(&mut taken, &mut self.slots);
        let r = ec_decode(taken, self.k, self.m);
        if degraded {
            self.degraded = true;
        }
        self.phase = EcPhase::Done;
        assert(erasure::slot_views(self.slots@) =~= Seq::empty());
        EcAction::Finish(r)
    }

    fn sweep_from(&mut self, i: usize) -> (a: EcAction)
        requires
            old(self).wf(),
        ensures
            (final(self)@, a@) == old(self)@.sweep_from(i as int),
            final(self).wf(),
            gives_back(a@, old(self)@.sweep_source(i as int)),
    {
        if i < self.rest.len() {
            self.phase = EcPhase::Sweep(i);
            return EcAction::Ask(self.rest[i]);
        }
        if self.k > 0 && count_filled(&self.slots) >= self.k {
            return self.decoded(true);
        }
        let e = self.last_err.clone();
        self.finished(Err(e))
    }

    fn probe_from(&mut self, i: usize) -> (a: EcAction)
        requires
            old(self).wf(),
        ensures
            (final(self)@, a@) == old(self)@.probe_from(i as int),
            final(self).wf(),
            i >= old(self).targets@.len() ==> gives_back(a@, old(self)@.sweep_source(0)),
    {
        if i < self.targets.len() {
            self.phase = EcPhase::Probe(i);
            EcAction::Ask(self.targets[i])
        } else {
            self.sweep_from(0)
        }
    }

    fn strays_from(&mut self, i: usize) -> (a: EcAction)
        requires
            old(self).wf(),
            old(self).slots@.len() == old(self).k + old(self).m,
        ensures
            (final(self)@, a@) == old(self)@.strays_from(i as int),
            final(self).wf(),
            gives_back(a@, old(self)@.strays_source(i as int)),
    {
        if i < self.rest.len() {
            self.phase = EcPhase::Strays(i);
            EcAction::Ask(self.rest[i])
        } else {
            self.decoded(true)
        }
    }

    fn note(&mut self, e: DomainError)
        requires
            old(self).wf(),
        ensures
            final(self)@ == old(self)@.noted(e@),
            final(self).wf(),
    {
        match e {
            DomainError::NotFound => {},
            _ => {
                self.last_err = e;
            },
        }
    }

    fn ranks(&self, from: usize, to: usize) -> (r: Vec<ShardId>)
        requires
            from <= to <= self.slots@.len(),
        ensures
            r@ == open_ranks(self@, from as nat, to as nat),
    {
        let mut out: Vec<ShardId> = Vec::new();
        let mut r: usize = from;
        while r < to
            invariant
                from <= r <= to <= self.slots@.len(),
                out@ == open_ranks(self@, from as nat, r as nat),
            decreases to - r,
        {
            assert(self@.slots[r as int] is None <==> self.slots@[r as int] is None);
            if r != self.probe && self.slots[r].is_none() && r < self.targets.len() {
                out.push(self.targets[r]);
            }
            r = r + 1;
        }
        out
    }

    fn gather(&mut self, i: usize, h: &PieceHeader, body: Vec<u8>) -> (a: EcAction)
        requires
            old(self).wf(),
            h.wf(),
        ensures
            (final(self)@, a@) == old(self)@.gather(i as int, *h, body@),
            final(self).wf(),
    {
        let total: usize = h.k as usize + h.m as usize;
        let mut slots = empty_slots(total);
        let ghost free = slots@;
        slots[h.piece_idx as usize] = Some(body);
        assert(erasure::slot_views(slots@) =~= erasure::slot_views(free).update(
            h.piece_idx as int,
            Some(body@),
        ));
        self.k = h.k as usize;
        self.m = h.m as usize;
        self.probe = i;
        self.slots = slots;
        self.phase = EcPhase::Data;
        EcAction::AskAll(self.ranks(0, self.k))
    }

    fn collected(&mut self, h: &PieceHeader, body: Vec<u8>)
        requires
            old(self).wf(),
            old(self).phase is Sweep,
            h.wf(),
        ensures
            final(self)@ == old(self)@.collected(*h, body@),
            final(self).wf(),
            final(self).phase == old(self).phase,
    {
        let total: usize = h.k as usize + h.m as usize;
        if self.slots.len() != total {
            self.slots = empty_slots(total);
        }
        let ghost before = self.slots@;
        let at: usize = h.piece_idx as usize;
        assert(erasure::slot_views(before)[at as int] is None <==> before[at as int] is None);
        if self.slots[at].is_none() {
            self.slots[at] = Some(body);
            assert(erasure::slot_views(self.slots@) =~= erasure::slot_views(before).update(
                at as int,
                Some(body@),
            ));
        }
        self.k = h.k as usize;
        self.m = h.m as usize;
    }

    /// Starts a read: the targets are probed in order, then all other shards.
    pub fn begin(targets: Vec<ShardId>, n: usize) -> (r: (EcRead, EcAction))
        requires
            n <= 0x1_0000,
        ensures
            r.0.wf(),
            (r.0@, r.1@) == (EcView {
                targets: targets@,
                rest: pool::others_of(targets@, n as nat),
                phase: EcPhase::Done,
                k: 0,
                m: 0,
                probe: 0,
                slots: Seq::empty(),
                last_err: domain::ErrorView::NotFound,
                degraded: false,
            }).probe_from(0),
    {
        let rest = pool::others(&targets, n);
        let mut run = EcRead {
            targets,
            rest,
            phase: EcPhase::Done,
            k: 0,
            m: 0,
            probe: 0,
            slots: Vec::new(),
            last_err: DomainError::NotFound,
            degraded: false,
        };
        assert(erasure::slot_views(run.slots@) =~= Seq::empty());
        let a = run.probe_from(0);
        (run, a)
    }

    /// Goes on after an answer.
    pub fn advance(&mut self, ev: EcEvent) -> (a: EcAction)
        requires
            old(self).wf(),
        ensures
            (final(self)@, a@) == old(self)@.step(ev@),
            final(self).wf(),
            gives_back(a@, old(self)@.source(ev@)),
    {
        match (self.phase, ev) {
            (EcPhase::Probe(i), EcEvent::Reply(Ok(body))) => {
                match parse_piece_header(body.as_slice()) {
                    None => self.finished(Ok(body)),
                    Some(h) => self.gather(i, &h, body),
                }
            },
            (EcPhase::Probe(i), EcEvent::Reply(Err(e))) => {
                self.note(e);
                self.probe_from(i + 1)
            },
            (EcPhase::Sweep(i), EcEvent::Reply(Ok(body))) => {
                match parse_piece_header(body.as_slice()) {
                    None => self.finished(Ok(body)),
                    Some(h) => {
                        self.collected(&h, body);
                        self.sweep_from(i + 1)
                    },
                }
            },
            (EcPhase::Sweep(i), EcEvent::Reply(Err(_))) => self.sweep_from(i + 1),
            (EcPhase::Data, EcEvent::Bodies(b)) => {
                fill_slots(&mut self.slots, b);
                if first_filled(&self.slots, self.k) {
                    self.decoded(false)
                } else {
                    self.phase = EcPhase::Parity;
                    let asked = self.ranks(self.k, self.k + self.m);
                    proof {
                        let v = EcView { phase: EcPhase::Data, ..self@ };
                        lemma_ranks_ignore_phase(v, self@, self.k as nat, (self.k + self.m) as nat);
                    }
                    EcAction::AskAll(asked)
                }
            },
            (EcPhase::Parity, EcEvent::Bodies(b)) => {
                fill_slots(&mut self.slots, b);
                if count_filled(&self.slots) < self.k {
                    self.strays_from(0)
                } else {
                    self.decoded(true)
                }
            },
            (EcPhase::Strays(i), EcEvent::Reply(Ok(body))) => {
                fill_slot(&mut self.slots, body);
                self.strays_from(i + 1)
            },
            (EcPhase::Strays(i), EcEvent::Reply(Err(_))) => self.strays_from(i + 1),
            _ => {
                let e = self.last_err.clone();
                self.finished(Err(e))
            },
        }
    }
}

proof fn lemma_ranks_ignore_phase(a: EcView, b: EcView, from: nat, to: nat)
    requires
        a.targets == b.targets,
        a.slots == b.slots,
        a.probe == b.probe,
    ensures
        open_ranks(a, from, to) == open_ranks(b, from, to),
    decreases to,
{
    if to > from {
        lemma_ranks_ignore_phase(a, b, from, (to - 1) as nat);
    }
}

/// Ranks whose shard does not hold the key.
pub open spec fn missing_ranks(held: Seq<bool>) -> Seq<usize>
    decreases held.len(),
{
    if held.len() == 0 {
        Seq::empty()
    } else {
        let rest = missing_ranks(held.drop_last());
        if held.last() {
            rest
        } else {
            rest.push((held.len() - 1) as usize)
        }
    }
}

/// Whether an object needs no repair, judged by which of its shards hold
/// something: all of them do, or exactly those of the mirror copies do.
pub open spec fn looks_healthy(held: Seq<bool>, total: nat, legs: nat) -> bool {
    let missing = missing_ranks(held);
    ||| missing.len() == 0
    ||| {
        &&& forall|i: int| 0 <= i < missing.len() ==> (#[trigger] missing[i]) >= legs
        &&& missing.len() == (if total >= legs {
            total - legs
        } else {
            0
        })
    }
}

/// Whether an object of `total` pieces, or `legs` copies, needs no repair.
/// `held[r]` says whether the shard of rank `r` holds the key.
pub fn is_healthy(held: &Vec<bool>, total: usize, legs: usize) -> (r: bool)
    ensures
        r == looks_healthy(held@, total as nat, legs as nat),
{
    let mut missing: usize = 0;
    let mut only_tail: bool = true;
    let mut i: usize = 0;
    while i < held.len()
        invariant
            i <= held@.len(),
            missing <= i,
            missing == missing_ranks(held@.take(i as int)).len(),
            only_tail ==> forall|j: int|
                0 <= j < missing ==> (#[trigger] missing_ranks(held@.take(i as int))[j]) >= legs,
            !only_tail ==> exists|j: int|
                0 <= j < missing && (#[trigger] missing_ranks(held@.take(i as int))[j]) < legs,
        decreases held@.len() - i,
    {
        let ghost before = missing_ranks(held@.take(i as int));
        let ghost now = missing_ranks(held@.take(i + 1));
        assert(held@.take(i + 1).drop_last() =~= held@.take(i as int));
        if !held[i] {
            assert(now == before.push(i));
            missing = missing + 1;
            if i < legs {
                only_tail = false;
                assert(now[before.len() as int] < legs);
            } else if !only_tail {
                proof {
                    let j = choose|j: int| 0 <= j < before.len() && (#[trigger] before[j]) < legs;
                    assert(now[j] < legs);
                }
            } else {
                assert forall|j: int| 0 <= j < missing implies (#[trigger] now[j]) >= legs by {
                    if j < before.len() {
                        assert(now[j] == before[j]);
                    }
                }
            }
        } else {
            assert(now == before);
        }
        i = i + 1;
    }
    assert(held@.take(held@.len() as int) =~= held@);
    let tail: usize = if total >= legs {
        total - legs
    } else {
        0
    };
    missing == 0 || (only_tail && missing == tail)
}

/// The bodies that were read, in order of rank.
pub open spec fn read_bodies(reads: Seq<Option<Seq<u8>>>) -> Seq<Seq<u8>>
    decreases reads.len(),
{
    if reads.len() == 0 {
        Seq::empty()
    } else {
        let rest = read_bodies(reads.drop_last());
        match reads.last() {
            Some(b) => rest.push(b),
            None => rest,
        }
    }
}

/// Whether rank `r` holds the piece that belongs there.
pub open spec fn in_place(r: int, read: Option<Seq<u8>>) -> bool {
    read matches Some(b) && piece::parsed_piece(b) matches Some(h) && h.piece_idx == r
}

/// The ranks that do not hold the piece that belongs there.
pub open spec fn ranks_to_repair(reads: Seq<Option<Seq<u8>>>) -> Seq<usize>
    decreases reads.len(),
{
    if reads.len() == 0 {
        Seq::empty()
    } else {
        let rest = ranks_to_repair(reads.drop_last());
        if in_place(reads.len() - 1, reads.last()) {
            rest
        } else {
            rest.push((reads.len() - 1) as usize)
        }
    }
}

/// Takes stock of an erasure-coded object: what the shards of its ranks hold,
/// put into slots, and which ranks need a piece.
pub fn survey(reads: &Vec<Option<Vec<u8>>>, total: usize) -> (r: (Vec<Option<Vec<u8>>>, Vec<usize>))
    ensures
        erasure::slot_views(r.0@) == filled_all(
            free_slots(total as nat),
            read_bodies(erasure::slot_views(reads@)),
        ),
        r.1@ == ranks_to_repair(erasure::slot_views(reads@)),
        r.0@.len() == total,
{
    let ghost rv = erasure::slot_views(reads@);
    let mut slots = empty_slots(total);
    let mut bad: Vec<usize> = Vec::new();
    let mut i: usize = 0;
    while i < reads.len()
        invariant
            i <= reads@.len(),
            rv == erasure::slot_views(reads@),
            slots@.len() == total,
            erasure::slot_views(slots@) == filled_all(
                free_slots(total as nat),
                read_bodies(rv.take(i as int)),
            ),
            bad@ == ranks_to_repair(rv.take(i as int)),
        decreases reads@.len() - i,
    {
        let ghost bodies = read_bodies(rv.take(i as int));
        assert(rv.take(i + 1).drop_last() =~= rv.take(i as int));
        assert(rv.take(i + 1).last() == rv[i as int]);
        match &reads[i] {
            Some(b) => {
                let copy = crate::bytes::copy_range(b.as_slice(), 0, b.len());
                assert(copy@ =~= b@);
                let ok = match parse_piece_header(b.as_slice()) {
                    Some(h) => h.piece_idx as usize == i,
                    None => false,
                };
                fill_slot(&mut slots, copy);
                assert(bodies.push(b@).drop_last() =~= bodies);
                if !ok {
                    bad.push(i);
                }
            },
            None => {
                bad.push(i);
            },
        }
        i = i + 1;
    }
    assert(rv.take(reads@.len() as int) =~= rv);
    (slots, bad)
}

/// Pieces to be written, by rank.
pub open spec fn plan_views(v: Seq<(usize, Vec<u8>)>) -> Seq<(usize, Seq<u8>)> {
    Seq::new(v.len(), |i: int| (v[i].0, v[i].1@))
}

/// Each rank with its piece.
pub open spec fn pieces_for(ranks: Seq<usize>, pieces: Seq<Seq<u8>>) -> Seq<(usize, Seq<u8>)> {
    Seq::new(ranks.len(), |i: int| (ranks[i], pieces[ranks[i] as int]))
}

/// The pieces to write for the ranks that need one.  At least `k` pieces have
/// to be there.
pub fn repair_plan(slots: Vec<Option<Vec<u8>>>, ranks: &Vec<usize>, k: usize, m: usize) -> (r:
    DomainResult<Vec<(usize, Vec<u8>)>>)
    requires
        k > 0,
        k + m <= usize::MAX,
        forall|i: int| 0 <= i < ranks@.len() ==> (#[trigger] ranks@[i]) < k + m,
    ensures
        ({
            let sv = erasure::slot_views(slots@);
            let kn = k as nat;
            let mn = m as nat;
            if erasure::present(sv) < kn {
                r matches Err(e) && e@ == domain::ErrorView::Io(
                    "ec repair: fewer than "@ + text::dec_chars(kn) + " pieces"@,
                )
            } else if ranks@.len() == 0 {
                r matches Ok(plan) && plan@.len() == 0
            } else {
                match erasure::ec_decoded(sv, kn, mn) {
                    Err(e) => r matches Err(x) && x@ == e,
                    Ok(data) => if erasure::codec_exists(kn, mn) {
                        r matches Ok(plan) && plan_views(plan@) == pieces_for(
                            ranks@,
                            erasure::ec_pieces(data, kn, mn),
                        )
                    } else {
                        r matches Err(x) && x@ == domain::ErrorView::Io(
                            erasure::init_error(kn, mn),
                        )
                    },
                }
            }
        }),
        // pieces of an object are repaired to pieces of that object
        forall|data: Seq<u8>|
            ranks@.len() > 0 && #[trigger] erasure::recoverable(
                erasure::slot_views(slots@),
                data,
                k as nat,
                m as nat,
            ) ==> (r matches Ok(plan) && plan_views(plan@) == pieces_for(
                ranks@,
                erasure::ec_pieces(data, k as nat, m as nat),
            )),
{
    if count_filled(&slots) < k {
        let mut t = "ec repair: fewer than ".to_owned();
        text::push_dec(&mut t, k as u64);
        t.append(" pieces");
        return Err(DomainError::Io(t));
    }
    let mut plan: Vec<(usize, Vec<u8>)> = Vec::new();
    if ranks.len() == 0 {
        return Ok(plan);
    }
    let rebuilt = match ec_repair_pieces(slots, k, m) {
        Ok(v) => v,
        Err(e) => {
            return Err(e);
        },
    };
    let ghost pieces = erasure::views(rebuilt@);
    assert(pieces.len() == k + m);
    let mut i: usize = 0;
    while i < ranks.len()
        invariant
            i <= ranks@.len(),
            pieces == erasure::views(rebuilt@),
            rebuilt@.len() == k + m,
            forall|j: int| 0 <= j < ranks@.len() ==> (#[trigger] ranks@[j]) < k + m,
            plan_views(plan@) =~= pieces_for(ranks@, pieces).take(i as int),
        decreases ranks@.len() - i,
    {
        let r: usize = ranks[i];
        let ghost before = plan_views(plan@);
        let copy = crate::bytes::copy_range(rebuilt[r].as_slice(), 0, rebuilt[r].len());
        assert(copy@ =~= rebuilt@[r as int]@);
        plan.push((r, copy));
        assert(plan_views(plan@) =~= before.push((r, pieces[r as int])));
        i = i + 1;
    }
    assert(pieces_for(ranks@, pieces).take(ranks@.len() as int) =~= pieces_for(ranks@, pieces));
    Ok(plan)
}

/// How many writes succeeded and how many did not.
pub fn tally(done: &Vec<bool>) -> (r: (usize, usize))
    ensures
        r.0 == done@.filter(|x: bool| x).len(),
        r.0 + r.1 == done@.len(),
{
    let mut ok: usize = 0;
    let mut i: usize = 0;
    let total: usize = done.len();
    while i < total
        invariant
            total == done@.len(),
            i <= total,
            ok <= i,
            ok == done@.take(i as int).filter(|x: bool| x).len(),
        decreases total - i,
    {
        proof {
            assert(done@.take(i + 1).drop_last() =~= done@.take(i as int));
            reveal(Seq::filter);
        }
        if done[i] {
            ok = ok + 1;
        }
        i = i + 1;
    }
    assert(done@.take(total as int) =~= done@);
    (ok, total - ok)
}

/// The copies of a mirrored object that are missing: shards of `desired` that
/// do not hold the key.
pub open spec fn missing_copies(desired: Seq<ShardId>, held: Seq<bool>, n: nat) -> Seq<ShardId>
    decreases n,
{
    if n == 0 {
        Seq::empty()
    } else {
        let rest = missing_copies(desired, held, (n - 1) as nat);
        if held[n - 1] {
            rest
        } else {
            rest.push(desired[n - 1])
        }
    }
}

pub fn mirror_missing(desired: &Vec<ShardId>, held: &Vec<bool>) -> (r: Vec<ShardId>)
    requires
        desired@.len() == held@.len(),
    ensures
        r@ == missing_copies(desired@, held@, desired@.len()),
{
    let mut out: Vec<ShardId> = Vec::new();
    let mut i: usize = 0;
    while i < desired.len()
        invariant
            i <= desired@.len(),
            desired@.len() == held@.len(),
            out@ == missing_copies(desired@, held@, i as nat),
        decreases desired@.len() - i,
    {
        if !held[i] {
            out.push(desired[i]);
        }
        i = i + 1;
    }
    out
}

/// Takes room on every shard a repair touches, or on none: each shard serves at
/// most `cap` repairs at a time.
pub fn acquire_all(inflight: &mut Vec<usize>, targets: &Vec<ShardId>, cap: usize) -> (r: bool)
    requires
        forall|i: int| 0 <= i < targets@.len() ==> (#[trigger] targets@[i]).0 < old(inflight)@.len(),
        pool::distinct(targets@),
    ensures
        final(inflight)@.len() == old(inflight)@.len(),
        r == (forall|i: int|
            0 <= i < targets@.len() ==> old(inflight)@[(#[trigger] targets@[i]).0 as int] < cap),
        !r ==> final(inflight)@ == old(inflight)@,
        r ==> forall|s: int|
            #![trigger final(inflight)@[s]]
            0 <= s < final(inflight)@.len() ==> final(inflight)@[s] == old(inflight)@[s] + (
            if targets@.contains(pool::shard(s)) && s <= u16::MAX {
                1int
            } else {
                0
            }),
{
    let mut i: usize = 0;
    while i < targets.len()
        invariant
            i <= targets@.len(),
            inflight@ == old(inflight)@,
            forall|j: int|
                0 <= j < targets@.len() ==> (#[trigger] targets@[j]).0 < inflight@.len(),
            forall|j: int| 0 <= j < i ==> inflight@[(#[trigger] targets@[j]).0 as int] < cap,
        decreases targets@.len() - i,
    {
        if inflight[targets[i].0 as usize] >= cap {
            assert(old(inflight)@[targets@[i as int].0 as int] >= cap);
            return false;
        }
        i = i + 1;
    }
    let ghost start = inflight@;
    let mut k: usize = 0;
    while k < targets.len()
        invariant
            k <= targets@.len(),
            start == old(inflight)@,
            inflight@.len() == start.len(),
            pool::distinct(targets@),
            forall|j: int| 0 <= j < targets@.len() ==> (#[trigger] targets@[j]).0 < start.len(),
            forall|j: int| 0 <= j < targets@.len() ==> start[(#[trigger] targets@[j]).0 as int] < cap,
            forall|s: int|
                #![trigger inflight@[s]]
                0 <= s < start.len() ==> inflight@[s] == start[s] + (if targets@.take(
                    k as int,
                ).contains(pool::shard(s)) && s <= u16::MAX {
                    1int
                } else {
                    0
                }),
        decreases targets@.len() - k,
    {
        let t = targets[k];
        let s: usize = t.0 as usize;
        let ghost before = inflight@;
        proof {
            assert(pool::shard(s as int) == t);
            assert(!targets@.take(k as int).contains(t)) by {
                if targets@.take(k as int).contains(t) {
                    let j = choose|j: int| 0 <= j < k && targets@.take(k as int)[j] == t;
                    assert(targets@[j] == targets@[k as int]);
                }
            }
            assert(before[s as int] == start[s as int]);
        }
        let n: usize = inflight[s];
        inflight[s] = n + 1;
        proof {
            let old_part = targets@.take(k as int);
            let new_part = targets@.take(k + 1);
            assert(new_part =~= old_part.push(t));
            assert forall|x: int| 0 <= x < start.len() implies #[trigger] inflight@[x] == start[x]
                + (if new_part.contains(pool::shard(x)) && x <= u16::MAX {
                1int
            } else {
                0
            }) by {
                if x == s {
                    assert(new_part[k as int] == t);
                } else {
                    assert(inflight@[x] == before[x]);
                    if x <= u16::MAX {
                        assert(pool::shard(x) != t);
                        if new_part.contains(pool::shard(x)) {
                            let j = choose|j: int|
                                0 <= j < new_part.len() && new_part[j] == pool::shard(x);
                            assert(old_part[j] == pool::shard(x));
                        }
                        if old_part.contains(pool::shard(x)) {
                            let j = choose|j: int|
                                0 <= j < old_part.len() && old_part[j] == pool::shard(x);
                            assert(new_part[j] == pool::shard(x));
                        }
                    }
                }
            }
        }
        k = k + 1;
    }
    assert(targets@.take(targets@.len() as int) =~= targets@);
    true
}

/// Gives back the room a finished repair took.
pub fn release_all(inflight: &mut Vec<usize>, targets: &Vec<ShardId>)
    requires
        forall|i: int|
            0 <= i < targets@.len() ==> (#[trigger] targets@[i]).0 < old(inflight)@.len()
                && old(inflight)@[targets@[i].0 as int] > 0,
        pool::distinct(targets@),
    ensures
        final(inflight)@.len() == old(inflight)@.len(),
        forall|s: int|
            #![trigger final(inflight)@[s]]
            0 <= s < final(inflight)@.len() ==> final(inflight)@[s] == old(inflight)@[s] - (
            if targets@.contains(pool::shard(s)) && s <= u16::MAX {
                1int
            } else {
                0
            }),
{
    let ghost start = inflight@;
    let mut k: usize = 0;
    while k < targets.len()
        invariant
            k <= targets@.len(),
            start == old(inflight)@,
            inflight@.len() == start.len(),
            pool::distinct(targets@),
            forall|j: int|
                0 <= j < targets@.len() ==> (#[trigger] targets@[j]).0 < start.len()
                    && start[targets@[j].0 as int] > 0,
            forall|s: int|
                #![trigger inflight@[s]]
                0 <= s < start.len() ==> inflight@[s] == start[s] - (if targets@.take(
                    k as int,
                ).contains(pool::shard(s)) && s <= u16::MAX {
                    1int
                } else {
                    0
                }),
        decreases targets@.len() - k,
    {
        let t = targets[k];
        let s: usize = t.0 as usize;
        let ghost before = inflight@;
        proof {
            assert(pool::shard(s as int) == t);
            assert(!targets@.take(k as int).contains(t)) by {
                if targets@.take(k as int).contains(t) {
                    let j = choose|j: int| 0 <= j < k && targets@.take(k as int)[j] == t;
                    assert(targets@[j] == targets@[k as int]);
                }
            }
            assert(before[s as int] == start[s as int]);
        }
        let n: usize = inflight[s];
        inflight[s] = n - 1;
        proof {
            let old_part = targets@.take(k as int);
            let new_part = targets@.take(k + 1);
            assert(new_part =~= old_part.push(t));
            assert forall|x: int| 0 <= x < start.len() implies #[trigger] inflight@[x] == start[x]
                - (if new_part.contains(pool::shard(x)) && x <= u16::MAX {
                1int
            } else {
                0
            }) by {
                if x == s {
                    assert(new_part[k as int] == t);
                } else {
                    assert(inflight@[x] == before[x]);
                    if x <= u16::MAX {
                        assert(pool::shard(x) != t);
                        if new_part.contains(pool::shard(x)) {
                            let j = choose|j: int|
                                0 <= j < new_part.len() && new_part[j] == pool::shard(x);
                            assert(old_part[j] == pool::shard(x));
                        }
                        if old_part.contains(pool::shard(x)) {
                            let j = choose|j: int|
                                0 <= j < old_part.len() && old_part[j] == pool::shard(x);
                            assert(new_part[j] == pool::shard(x));
                        }
                    }
                }
            }
        }
        k = k + 1;
    }
    assert(targets@.take(targets@.len() as int) =~= targets@);
}

/// How many repairs run at once: at least one, at most one per request.
pub fn heal_workers(parallelism: usize, batch: usize) -> (r: usize)
    requires
        batch >= 1,
    ensures
        r == (if parallelism < 1 {
            1
        } else if parallelism > batch {
            batch
        } else {
            parallelism
        }),
{
    if parallelism < 1 {
        1
    } else if parallelism > batch {
        batch
    } else {
        parallelism
    }
}

/// The pieces of an object on the shards: which shard holds which piece.
pub ghost struct Spread {
    pub data: Seq<u8>,
    pub k: nat,
    pub m: nat,
    pub held: Map<ShardId, int>,
}

impl Spread {
    /// The pieces that some of the shards hold.
    pub open spec fn held_by(self, shards: Seq<ShardId>, j: int) -> bool {
        exists|x: int|
            0 <= x < shards.len() && self.held.contains_key(#[trigger] shards[x])
                && self.held[shards[x]] == j
    }

    /// The slots that the pieces on the targets and on the other shards fill.
    pub open spec fn within_reach(self, targets: Seq<ShardId>, rest: Seq<ShardId>) -> Seq<
        Option<Seq<u8>>,
    > {
        Seq::new(
            self.k + self.m,
            |j: int|
                if self.held_by(targets, j) || self.held_by(rest, j) {
                    Some(erasure::ec_pieces(self.data, self.k, self.m)[j])
                } else {
                    None
                },
        )
    }

    /// The object is cut as it should be, each target holds the piece of its rank or
    /// nothing, the other shards hold any pieces of it, and enough are held.
    pub open spec fn readable(self, targets: Seq<ShardId>, rest: Seq<ShardId>) -> bool {
        &&& erasure::codec_exists(self.k, self.m)
        &&& self.data.len() <= u64::MAX
        &&& erasure::parity_fits(self.data, self.k, self.m)
        &&& forall|s: ShardId| #[trigger]
            self.held.contains_key(s) ==> 0 <= self.held[s] < self.k + self.m
        &&& forall|r: int|
            0 <= r < targets.len() && self.held.contains_key(#[trigger] targets[r])
                ==> self.held[targets[r]] == r
        &&& erasure::present(self.within_reach(targets, rest)) >= self.k
    }

    /// What a shard holds.
    pub open spec fn body(self, s: ShardId) -> Seq<u8> {
        erasure::ec_pieces(self.data, self.k, self.m)[self.held[s]]
    }

    /// Whether one of the shards holds this body.
    pub open spec fn came_from(self, v: Seq<ShardId>, body: Seq<u8>) -> bool {
        exists|x: int|
            0 <= x < v.len() && self.held.contains_key(#[trigger] v[x]) && body == self.body(v[x])
    }

    /// Whether the shards answer an action like this.
    pub open spec fn answers(self, a: EcActionView, ev: EcEventView) -> bool {
        match a {
            EcActionView::Ask(s) => if self.held.contains_key(s) {
                ev == EcEventView::Reply(Ok(self.body(s)))
            } else {
                ev matches EcEventView::Reply(Err(_))
            },
            EcActionView::AskAll(v) => {
                &&& ev matches EcEventView::Bodies(b)
                &&& forall|i: int| 0 <= i < b.len() ==> self.came_from(v, #[trigger] b[i])
                &&& forall|x: int|
                    0 <= x < v.len() && self.held.contains_key(#[trigger] v[x]) ==> b.contains(
                        self.body(v[x]),
                    )
            },
            EcActionView::Finish(_) => false,
        }
    }
}

/// A moment of a read: where it stands and what it wants done.
pub ghost struct EcMoment {
    pub state: EcView,
    pub action: EcActionView,
}

/// Whether one moment of a read follows another.
pub open spec fn ec_follows(p: Spread, a: EcMoment, b: EcMoment) -> bool {
    exists|ev: EcEventView| #[trigger]
        p.answers(a.action, ev) && (b.state, b.action) == a.state.step(ev) && gives_back(
            b.action,
            a.state.source(ev),
        )
}

/// The moments of a read of an object with these targets, from its first on.
pub open spec fn is_ec_read(
    p: Spread,
    targets: Seq<ShardId>,
    rest: Seq<ShardId>,
    run: Seq<EcMoment>,
) -> bool {
    &&& run.len() > 0
    &&& (run[0].state, run[0].action) == (EcView {
        targets,
        rest,
        phase: EcPhase::Done,
        k: 0,
        m: 0,
        probe: 0,
        slots: Seq::empty(),
        last_err: domain::ErrorView::NotFound,
        degraded: false,
    }).probe_from(0)
    &&& forall|i: int| 0 < i < run.len() ==> ec_follows(p, run[i - 1], #[trigger] run[i])
}

pub(crate) proof fn lemma_more_present(a: Seq<Option<Seq<u8>>>, b: Seq<Option<Seq<u8>>>)
    requires
        a.len() == b.len(),
        forall|j: int| 0 <= j < a.len() && (#[trigger] a[j]) is Some ==> b[j] is Some,
    ensures
        erasure::present(a) <= erasure::present(b),
    decreases a.len(),
{
    if a.len() > 0 {
        let x = a.drop_last();
        let y = b.drop_last();
        assert forall|j: int| 0 <= j < x.len() && (#[trigger] x[j]) is Some implies y[j] is Some by {
            assert(x[j] == a[j] && y[j] == b[j]);
        }
        lemma_more_present(x, y);
        assert(a[a.len() - 1] is Some ==> b[a.len() - 1] is Some);
    }
}

pub(crate) proof fn lemma_none_present(a: Seq<Option<Seq<u8>>>)
    requires
        forall|j: int| 0 <= j < a.len() ==> (#[trigger] a[j]) is None,
    ensures
        erasure::present(a) == 0,
    decreases a.len(),
{
    if a.len() > 0 {
        let x = a.drop_last();
        assert forall|j: int| 0 <= j < x.len() implies (#[trigger] x[j]) is None by {
            assert(x[j] == a[j]);
        }
        lemma_none_present(x);
        assert(a[a.len() - 1] is None);
    }
}

/// Every rank to be asked is a free one, and every free one is asked.
proof fn lemma_open_ranks(v: EcView, from: nat, to: nat)
    ensures
        forall|x: int|
            0 <= x < open_ranks(v, from, to).len() ==> exists|r: int|
                from <= r < to && r < v.targets.len() && #[trigger] open_ranks(v, from, to)[x]
                    == #[trigger] v.targets[r],
        forall|r: int|
            from <= r < to && r != v.probe && v.slots[r] is None && r < v.targets.len()
                ==> open_ranks(v, from, to).contains(#[trigger] v.targets[r]),
    decreases to,
{
    if to > from {
        lemma_open_ranks(v, from, (to - 1) as nat);
        let rest = open_ranks(v, from, (to - 1) as nat);
        let all = open_ranks(v, from, to);
        assert forall|x: int| 0 <= x < all.len() implies exists|r: int|
            from <= r < to && r < v.targets.len() && #[trigger] all[x] == #[trigger] v.targets[r] by {
            if x < rest.len() {
                assert(all[x] == rest[x]);
                let r = choose|r: int|
                    from <= r < to - 1 && r < v.targets.len() && rest[x] == #[trigger] v.targets[r];
                assert(all[x] == v.targets[r]);
            } else {
                assert(all[x] == v.targets[to - 1]);
            }
        }
        assert forall|r: int|
            from <= r < to && r != v.probe && v.slots[r] is None && r
                < v.targets.len() implies all.contains(#[trigger] v.targets[r]) by {
            if r < to - 1 {
                assert(rest.contains(v.targets[r]));
                let x = choose|x: int| 0 <= x < rest.len() && rest[x] == v.targets[r];
                assert(all[x] == v.targets[r]);
            } else {
                assert(all[all.len() - 1] == v.targets[r]);
            }
        }
    }
}

/// Filling slots of an object with several of its pieces: all of them find their place.
pub(crate) proof fn lemma_filled_all(p: Spread, slots: Seq<Option<Seq<u8>>>, b: Seq<Seq<u8>>)
    requires
        erasure::codec_exists(p.k, p.m),
        p.data.len() <= u64::MAX,
        erasure::parity_fits(p.data, p.k, p.m),
        erasure::slots_from(slots, erasure::ec_pieces(p.data, p.k, p.m)),
        forall|i: int|
            0 <= i < b.len() ==> exists|j: int|
                0 <= j < p.k + p.m && #[trigger] b[i] == #[trigger] erasure::ec_pieces(
                    p.data,
                    p.k,
                    p.m,
                )[j],
    ensures
        erasure::slots_from(filled_all(slots, b), erasure::ec_pieces(p.data, p.k, p.m)),
        forall|j: int|
            0 <= j < p.k + p.m && (#[trigger] slots[j]) is Some ==> filled_all(slots, b)[j] is Some,
        forall|i: int, j: int|
            0 <= i < b.len() && 0 <= j < p.k + p.m && #[trigger] b[i]
                == #[trigger] erasure::ec_pieces(p.data, p.k, p.m)[j] ==> filled_all(slots, b)[j]
                is Some,
    decreases b.len(),
{
    let all = erasure::ec_pieces(p.data, p.k, p.m);
    if b.len() > 0 {
        let head = b.drop_last();
        assert forall|i: int| 0 <= i < head.len() implies exists|j: int|
            0 <= j < p.k + p.m && #[trigger] head[i] == #[trigger] all[j] by {
            assert(head[i] == b[i]);
        }
        lemma_filled_all(p, slots, head);
        let w = filled_all(slots, head);
        let n = b.len() - 1;
        let at = choose|j: int| 0 <= j < p.k + p.m && b[n] == #[trigger] all[j];
        erasure::lemma_piece_reads_back(p.data, p.k, p.m, at);
        fill_keeps_pieces(w, p.data, p.k, p.m, at);
        let f = filled_all(slots, b);
        assert(f == filled(w, all[at]));
        assert forall|i: int, j: int|
            0 <= i < b.len() && 0 <= j < p.k + p.m && #[trigger] b[i]
                == #[trigger] all[j] implies f[j] is Some by {
            if i < n {
                assert(head[i] == b[i]);
                assert(w[j] is Some);
            } else {
                erasure::lemma_piece_reads_back(p.data, p.k, p.m, j);
                assert(j == at);
            }
        }
    }
}

/// Once every piece within reach is in its slot the object can be put together.
proof fn lemma_enough(p: Spread, v: EcView, slots: Seq<Option<Seq<u8>>>)
    requires
        p.readable(v.targets, v.rest),
        erasure::slots_from(slots, erasure::ec_pieces(p.data, p.k, p.m)),
        forall|r: int|
            0 <= r < v.targets.len() && p.held.contains_key(#[trigger] v.targets[r]) ==> slots[r]
                is Some,
        forall|x: int|
            0 <= x < v.rest.len() && p.held.contains_key(#[trigger] v.rest[x])
                ==> slots[p.held[v.rest[x]]] is Some,
    ensures
        erasure::recoverable(slots, p.data, p.k, p.m),
{
    let a = p.within_reach(v.targets, v.rest);
    assert forall|j: int| 0 <= j < a.len() && (#[trigger] a[j]) is Some implies slots[j] is Some by {
        if p.held_by(v.targets, j) {
            let x = choose|x: int|
                0 <= x < v.targets.len() && p.held.contains_key(#[trigger] v.targets[x])
                    && p.held[v.targets[x]] == j;
            assert(x == j);
        } else {
            let x = choose|x: int|
                0 <= x < v.rest.len() && p.held.contains_key(#[trigger] v.rest[x])
                    && p.held[v.rest[x]] == j;
            assert(slots[p.held[v.rest[x]]] is Some);
        }
    }
    lemma_more_present(a, slots);
}

/// The pieces of the targets with ranks in `from..to` are in their slots.
spec fn gathered(p: Spread, v: EcView, slots: Seq<Option<Seq<u8>>>, from: int, to: int) -> bool {
    forall|r: int|
        from <= r < to && 0 <= r < v.targets.len() && p.held.contains_key(#[trigger] v.targets[r])
            ==> slots[r] is Some
}

/// The pieces of the first `i` other shards are in their slots.
spec fn swept(p: Spread, v: EcView, i: int) -> bool {
    forall|x: int|
        0 <= x < i && 0 <= x < v.rest.len() && p.held.contains_key(#[trigger] v.rest[x])
            ==> v.slots[p.held[v.rest[x]]] is Some
}

/// What holds at every moment of a read of a readable object.
spec fn ec_safe(p: Spread, a: EcMoment) -> bool {
    let v = a.state;
    let all = erasure::ec_pieces(p.data, p.k, p.m);
    let cut = v.k == p.k && v.m == p.m && erasure::slots_from(v.slots, all);
    &&& p.readable(v.targets, v.rest)
    &&& v.targets.len() <= usize::MAX && v.rest.len() <= usize::MAX
    &&& match v.phase {
        EcPhase::Probe(i) => {
            &&& i < v.targets.len()
            &&& a.action == EcActionView::Ask(v.targets[i as int])
            &&& v.k == 0 && v.slots.len() == 0
            &&& forall|r: int| 0 <= r < i ==> !p.held.contains_key(#[trigger] v.targets[r])
        },
        EcPhase::Sweep(i) => {
            &&& i < v.rest.len()
            &&& a.action == EcActionView::Ask(v.rest[i as int])
            &&& forall|r: int|
                0 <= r < v.targets.len() ==> !p.held.contains_key(#[trigger] v.targets[r])
            &&& sweeping(p, v, i as int)
        },
        EcPhase::Data => {
            &&& cut
            &&& v.probe < p.k + p.m
            &&& v.slots[v.probe as int] is Some
            &&& a.action == EcActionView::AskAll(open_ranks(v, 0, v.k))
        },
        EcPhase::Parity => {
            &&& cut
            &&& v.probe < p.k + p.m
            &&& v.slots[v.probe as int] is Some
            &&& gathered(p, v, v.slots, 0, p.k as int)
            &&& a.action == EcActionView::AskAll(open_ranks(v, v.k, v.k + v.m))
        },
        EcPhase::Strays(i) => {
            &&& cut
            &&& i < v.rest.len()
            &&& a.action == EcActionView::Ask(v.rest[i as int])
            &&& gathered(p, v, v.slots, 0, v.targets.len() as int)
            &&& swept(p, v, i as int)
        },
        EcPhase::Done => a.action == EcActionView::Finish(Ok(p.data)),
    }
}

/// The state of a sweep of the other shards up to number `i`: nothing found yet, or all
/// that was found is in its slot.
spec fn sweeping(p: Spread, v: EcView, i: int) -> bool {
    ||| {
        &&& v.k == 0 && v.slots.len() == 0
        &&& forall|x: int|
            0 <= x < i && 0 <= x < v.rest.len() ==> !p.held.contains_key(#[trigger] v.rest[x])
    }
    ||| {
        &&& v.k == p.k && v.m == p.m
        &&& erasure::slots_from(v.slots, erasure::ec_pieces(p.data, p.k, p.m))
        &&& swept(p, v, i)
    }
}

proof fn lemma_gives_back(p: Spread, a: EcActionView, d: EcSource)
    requires
        gives_back(a, Some(d)),
        d.k == p.k,
        d.m == p.m,
        erasure::recoverable(d.slots, p.data, p.k, p.m),
    ensures
        a == EcActionView::Finish(Ok(p.data)),
{
    assert(erasure::recoverable(d.slots, p.data, d.k, d.m));
    let from = Some(d);
    assert(from->0 == d);
}

/// Going on with the sweep, or putting the object together at its end.
proof fn lemma_sweep_on(p: Spread, v: EcView, i: int, b: EcMoment)
    requires
        p.readable(v.targets, v.rest),
        v.targets.len() <= usize::MAX,
        v.rest.len() <= usize::MAX,
        0 <= i <= v.rest.len(),
        forall|r: int| 0 <= r < v.targets.len() ==> !p.held.contains_key(#[trigger] v.targets[r]),
        sweeping(p, v, i),
        (b.state, b.action) == v.sweep_from(i),
        gives_back(b.action, v.sweep_source(i)),
    ensures
        ec_safe(p, b),
{
    if i == v.rest.len() {
        if v.k == 0 {
            let a = p.within_reach(v.targets, v.rest);
            assert forall|j: int| 0 <= j < a.len() implies (#[trigger] a[j]) is None by {
                if p.held_by(v.targets, j) {
                    let x = choose|x: int|
                        0 <= x < v.targets.len() && p.held.contains_key(#[trigger] v.targets[x])
                            && p.held[v.targets[x]] == j;
                    assert(false);
                }
                if p.held_by(v.rest, j) {
                    let x = choose|x: int|
                        0 <= x < v.rest.len() && p.held.contains_key(#[trigger] v.rest[x])
                            && p.held[v.rest[x]] == j;
                    assert(false);
                }
            }
            lemma_none_present(a);
            assert(false);
        }
        lemma_enough(p, v, v.slots);
        lemma_gives_back(p, b.action, EcSource { slots: v.slots, k: v.k, m: v.m });
    } else {
        assert(sweeping(p, b.state, i));
    }
}

/// Going on with the search for strays, or putting the object together at its end.
proof fn lemma_strays_on(p: Spread, v: EcView, i: int, b: EcMoment)
    requires
        p.readable(v.targets, v.rest),
        v.targets.len() <= usize::MAX,
        v.rest.len() <= usize::MAX,
        0 <= i <= v.rest.len(),
        v.k == p.k,
        v.m == p.m,
        erasure::slots_from(v.slots, erasure::ec_pieces(p.data, p.k, p.m)),
        gathered(p, v, v.slots, 0, v.targets.len() as int),
        swept(p, v, i),
        (b.state, b.action) == v.strays_from(i),
        gives_back(b.action, v.strays_source(i)),
    ensures
        ec_safe(p, b),
{
    if i == v.rest.len() {
        lemma_enough(p, v, v.slots);
        lemma_gives_back(p, b.action, EcSource { slots: v.slots, k: v.k, m: v.m });
    } else {
        assert(gathered(p, b.state, b.state.slots, 0, b.state.targets.len() as int));
        assert(swept(p, b.state, i));
    }
}

/// What comes back from the asked ranks finds its place.
proof fn lemma_asked(p: Spread, v: EcView, from: nat, to: nat, b: Seq<Seq<u8>>)
    requires
        p.readable(v.targets, v.rest),
        erasure::slots_from(v.slots, erasure::ec_pieces(p.data, p.k, p.m)),
        v.probe < p.k + p.m,
        v.slots[v.probe as int] is Some,
        to <= p.k + p.m,
        p.answers(EcActionView::AskAll(open_ranks(v, from, to)), EcEventView::Bodies(b)),
    ensures
        erasure::slots_from(filled_all(v.slots, b), erasure::ec_pieces(p.data, p.k, p.m)),
        forall|j: int|
            0 <= j < p.k + p.m && (#[trigger] v.slots[j]) is Some ==> filled_all(v.slots, b)[j]
                is Some,
        gathered(p, v, filled_all(v.slots, b), from as int, to as int),
{
    let all = erasure::ec_pieces(p.data, p.k, p.m);
    let asked = open_ranks(v, from, to);
    let a = EcActionView::AskAll(asked);
    let ev = EcEventView::Bodies(b);
    assert(a->AskAll_0 == asked && ev->Bodies_0 == b);
    lemma_open_ranks(v, from, to);
    assert forall|i: int| 0 <= i < b.len() implies exists|j: int|
        0 <= j < p.k + p.m && #[trigger] b[i] == #[trigger] all[j] by {
        assert(p.came_from(asked, b[i]));
        let x = choose|x: int|
            0 <= x < asked.len() && p.held.contains_key(#[trigger] asked[x]) && b[i] == p.body(
                asked[x],
            );
        assert(b[i] == all[p.held[asked[x]]]);
    }
    lemma_filled_all(p, v.slots, b);
    let f = filled_all(v.slots, b);
    assert forall|r: int|
        from <= r < to && 0 <= r < v.targets.len() && p.held.contains_key(
            #[trigger] v.targets[r],
        ) implies f[r] is Some by {
        if v.slots[r] is None {
            assert(asked.contains(v.targets[r]));
            let x = choose|x: int| 0 <= x < asked.len() && asked[x] == v.targets[r];
            assert(p.held.contains_key(asked[x]));
            assert(b.contains(p.body(asked[x])));
            let i = choose|i: int| 0 <= i < b.len() && b[i] == p.body(asked[x]);
            assert(b[i] == all[r]);
        }
    }
}

#[verifier::rlimit(60)]
proof fn lemma_ec_step(p: Spread, a: EcMoment, b: EcMoment)
    requires
        ec_safe(p, a),
        ec_follows(p, a, b),
    ensures
        ec_safe(p, b),
        b.state.targets == a.state.targets,
        b.state.rest == a.state.rest,
{
    let ev = choose|ev: EcEventView| #[trigger]
        p.answers(a.action, ev) && (b.state, b.action) == a.state.step(ev) && gives_back(
            b.action,
            a.state.source(ev),
        );
    let v = a.state;
    let all = erasure::ec_pieces(p.data, p.k, p.m);
    match v.phase {
        EcPhase::Probe(i) => {
            let s = v.targets[i as int];
            if p.held.contains_key(s) {
                erasure::lemma_piece_reads_back(p.data, p.k, p.m, i as int);
                let w = b.state.slots;
                assert(erasure::slots_from(w, all));
            } else {
                let e = (ev->Reply_0)->Err_0;
                let n = v.noted(e);
                if i + 1 >= v.targets.len() {
                    assert(sweeping(p, n, 0));
                    lemma_sweep_on(p, n, 0, b);
                }
            }
        },
        EcPhase::Sweep(i) => {
            let s = v.rest[i as int];
            if p.held.contains_key(s) {
                let j = p.held[s];
                erasure::lemma_piece_reads_back(p.data, p.k, p.m, j);
                let h = erasure::piece_header(p.data.len(), p.k, p.m, j);
                let c = v.collected(h, all[j]);
                assert(erasure::slots_from(c.slots, all));
                assert(swept(p, c, i + 1));
                lemma_sweep_on(p, c, i + 1, b);
            } else {
                assert(sweeping(p, v, i + 1));
                lemma_sweep_on(p, v, i + 1, b);
            }
        },
        EcPhase::Data => {
            let got = ev->Bodies_0;
            lemma_asked(p, v, 0, v.k, got);
            let f = filled_all(v.slots, got);
            if erasure::all_filled(f, v.k) {
                let full = Seq::new(
                    p.k + p.m,
                    |j: int|
                        if j < p.k {
                            Some(all[j])
                        } else {
                            None
                        },
                );
                lemma_prefix_present(full, p.k as int);
                assert forall|j: int| 0 <= j < full.len() && (#[trigger] full[j]) is Some implies f[j]
                    is Some by {
                    assert(f[j] is Some);
                }
                lemma_more_present(full, f);
                lemma_gives_back(p, b.action, EcSource { slots: f, k: v.k, m: v.m });
            } else {
                let w = EcView { slots: f, ..v };
                lemma_ranks_ignore_phase(w, b.state, v.k, v.k + v.m);
                assert(f[v.probe as int] is Some);
                assert(gathered(p, b.state, b.state.slots, 0, p.k as int));
            }
        },
        EcPhase::Parity => {
            let got = ev->Bodies_0;
            lemma_asked(p, v, v.k, v.k + v.m, got);
            let f = filled_all(v.slots, got);
            let w = EcView { slots: f, ..v };
            assert(gathered(p, w, w.slots, 0, w.targets.len() as int)) by {
                assert forall|r: int|
                    0 <= r < w.targets.len() && p.held.contains_key(
                        #[trigger] w.targets[r],
                    ) implies f[r] is Some by {
                    assert(p.held[v.targets[r]] == r);
                    if r < p.k {
                        assert(v.slots[r] is Some);
                    }
                }
            }
            if erasure::present(f) < v.k {
                lemma_strays_on(p, w, 0, b);
            } else {
                lemma_gives_back(p, b.action, EcSource { slots: f, k: v.k, m: v.m });
            }
        },
        EcPhase::Strays(i) => {
            let s = v.rest[i as int];
            if p.held.contains_key(s) {
                let j = p.held[s];
                erasure::lemma_piece_reads_back(p.data, p.k, p.m, j);
                fill_keeps_pieces(v.slots, p.data, p.k, p.m, j);
                let w = EcView { slots: filled(v.slots, all[j]), ..v };
                assert forall|x: int| 0 <= x < all.len() && v.slots[x] is Some implies (
                #[trigger] w.slots[x]) is Some by {}
                assert(gathered(p, w, w.slots, 0, w.targets.len() as int));
                assert(swept(p, w, i + 1));
                lemma_strays_on(p, w, i + 1, b);
            } else {
                assert(swept(p, v, i + 1));
                lemma_strays_on(p, v, i + 1, b);
            }
        },
        EcPhase::Done => {},
    }
}

proof fn lemma_prefix_present(a: Seq<Option<Seq<u8>>>, n: int)
    requires
        0 <= n <= a.len(),
        forall|j: int| 0 <= j < n ==> (#[trigger] a[j]) is Some,
    ensures
        erasure::present(a) >= n,
    decreases a.len(),
{
    if a.len() > 0 {
        let x = a.drop_last();
        let m = if n == a.len() {
            n - 1
        } else {
            n
        };
        assert forall|j: int| 0 <= j < m implies (#[trigger] x[j]) is Some by {
            assert(x[j] == a[j]);
        }
        lemma_prefix_present(x, m);
        if n == a.len() {
            assert(a[n - 1] is Some);
        }
    }
}

proof fn lemma_ec_read(
    p: Spread,
    targets: Seq<ShardId>,
    rest: Seq<ShardId>,
    run: Seq<EcMoment>,
    i: int,
)
    requires
        p.readable(targets, rest),
        targets.len() <= usize::MAX,
        0 < rest.len() + targets.len(),
        rest.len() <= usize::MAX,
        is_ec_read(p, targets, rest, run),
        0 <= i < run.len(),
    ensures
        ec_safe(p, run[i]),
        run[i].state.targets == targets,
        run[i].state.rest == rest,
    decreases i,
{
    if i > 0 {
        lemma_ec_read(p, targets, rest, run, i - 1);
        assert(ec_follows(p, run[i - 1], run[i]));
        lemma_ec_step(p, run[i - 1], run[i]);
    } else if targets.len() == 0 {
        assert(sweeping(p, run[0].state, 0));
    }
}

/// An object is read back as long as enough of its pieces are left: on the shards of their
/// ranks, or strayed to others.  It does not matter which ones are lost, nor in which
/// order the shards answer.
pub proof fn enough_pieces_give_the_object(
    p: Spread,
    targets: Seq<ShardId>,
    rest: Seq<ShardId>,
    run: Seq<EcMoment>,
    i: int,
)
    requires
        p.readable(targets, rest),
        targets.len() <= usize::MAX,
        0 < rest.len() + targets.len(),
        rest.len() <= usize::MAX,
        is_ec_read(p, targets, rest, run),
        0 <= i < run.len(),
        run[i].action is Finish,
    ensures
        run[i].action == EcActionView::Finish(Ok(p.data)),
{
    lemma_ec_read(p, targets, rest, run, i);
}

/// The numbers of the attempts that succeeded, in order of arrival.
pub open spec fn written_of(out: Seq<(usize, DomainResult<()>)>) -> Seq<int>
    decreases out.len(),
{
    if out.len() == 0 {
        Seq::empty()
    } else {
        let rest = written_of(out.drop_last());
        if out.last().1 is Ok {
            rest.push(out.last().0 as int)
        } else {
            rest
        }
    }
}

/// Which shard holds which piece after the first attempts.
pub open spec fn held_after(legs: Seq<ShardId>, out: Seq<(usize, DomainResult<()>)>) -> Map<
    ShardId,
    int,
>
    decreases out.len(),
{
    if out.len() == 0 {
        Map::empty()
    } else {
        let rest = held_after(legs, out.drop_last());
        if out.last().1 is Ok {
            rest.insert(legs[out.last().0 as int], out.last().0 as int)
        } else {
            rest
        }
    }
}

/// The same after spare shards took pieces whose first attempt had failed.
pub open spec fn held_with_spares(
    held: Map<ShardId, int>,
    failed: Seq<usize>,
    spares: Seq<ShardId>,
) -> Map<ShardId, int>
    decreases spares.len(),
{
    if spares.len() == 0 {
        held
    } else {
        held_with_spares(held, failed, spares.drop_last()).insert(
            spares.last(),
            failed[spares.len() - 1] as int,
        )
    }
}

proof fn lemma_held_after(legs: Seq<ShardId>, out: Seq<(usize, DomainResult<()>)>)
    requires
        pool::distinct(legs),
        pool::outcomes_fit(legs, out),
    ensures
        forall|s: ShardId| #[trigger]
            held_after(legs, out).contains_key(s) ==> {
                let j = held_after(legs, out)[s];
                0 <= j < legs.len() && legs[j] == s
            },
        forall|x: int|
            0 <= x < written_of(out).len() ==> {
                let j = #[trigger] written_of(out)[x];
                &&& 0 <= j < legs.len()
                &&& held_after(legs, out).contains_key(legs[j])
                &&& held_after(legs, out)[legs[j]] == j
                &&& exists|y: int| 0 <= y < out.len() && (#[trigger] out[y]).0 == j && out[y].1 is Ok
            },
        written_of(out).len() == pool::acked_of(legs, out).len(),
        distinct_numbers(written_of(out)),
        distinct_numbers(written_of(out) + numbers(pool::failed_of(out))),
        forall|x: int|
            0 <= x < pool::failed_of(out).len() ==> (#[trigger] pool::failed_of(out)[x])
                < legs.len(),
        numbers_of(out, written_of(out) + numbers(pool::failed_of(out))),
    decreases out.len(),
{
    if out.len() > 0 {
        let p = out.drop_last();
        assert(pool::outcomes_fit(legs, p)) by {
            assert forall|i: int| 0 <= i < p.len() implies (#[trigger] p[i]).0 < legs.len() by {
                assert(p[i] == out[i]);
            }
            assert forall|i: int, j: int| 0 <= i < j < p.len() implies (#[trigger] p[i]).0 != (
            #[trigger] p[j]).0 by {
                assert(p[i] == out[i] && p[j] == out[j]);
            }
        }
        lemma_held_after(legs, p);
        let last = out.last();
        assert(out[out.len() - 1] == last);
        let before = held_after(legs, p);
        let after = held_after(legs, out);
        assert forall|s: ShardId| #[trigger] after.contains_key(s) implies 0 <= after[s]
            < legs.len() && legs[after[s]] == s by {
            if last.1 is Ok && s == legs[last.0 as int] {
                assert(after[s] == last.0);
            } else {
                assert(before.contains_key(s));
                assert(after[s] == before[s]);
            }
        }
        let w = written_of(p);
        let f = numbers(pool::failed_of(p));
        let both = w + f;
        let now = written_of(out) + numbers(pool::failed_of(out));
        // the last attempt is none of the earlier ones
        assert forall|x: int| 0 <= x < both.len() implies both[x] != last.0 as int by {
            let y = choose|y: int| 0 <= y < p.len() && (#[trigger] p[y]).0 == both[x];
            assert(p[y] == out[y]);
        }
        assert forall|x: int| 0 <= x < w.len() implies #[trigger] w[x] != last.0 as int by {
            assert(both[x] == w[x]);
        }
        assert forall|x: int| 0 <= x < now.len() implies exists|y: int|
            0 <= y < out.len() && (#[trigger] out[y]).0 == #[trigger] now[x] by {
            if last.1 is Ok {
                assert(written_of(out) == w.push(last.0 as int));
                if x < w.len() {
                    assert(now[x] == both[x]);
                } else if x == w.len() {
                    assert(out[out.len() - 1].0 == now[x]);
                } else {
                    assert(now[x] == both[x - 1]);
                }
                if x != w.len() {
                    let b = if x < w.len() {
                        x
                    } else {
                        x - 1
                    };
                    let y = choose|y: int| 0 <= y < p.len() && (#[trigger] p[y]).0 == both[b];
                    assert(out[y].0 == now[x]);
                }
            } else {
                assert(numbers(pool::failed_of(out)) =~= f.push(last.0 as int));
                if x < both.len() {
                    assert(now[x] == both[x]);
                    let y = choose|y: int| 0 <= y < p.len() && (#[trigger] p[y]).0 == both[x];
                    assert(out[y].0 == now[x]);
                } else {
                    assert(out[out.len() - 1].0 == now[x]);
                }
            }
        }
        assert(distinct_numbers(now)) by {
            assert forall|i: int, j: int| 0 <= i < j < now.len() implies now[i] != now[j] by {
                if last.1 is Ok {
                    let at = w.len() as int;
                    let a = if i < at {
                        i
                    } else {
                        i - 1
                    };
                    let b = if j < at {
                        j
                    } else {
                        j - 1
                    };
                    if i == at {
                        assert(now[j] == both[b]);
                    } else if j == at {
                        assert(now[i] == both[a]);
                    } else {
                        assert(now[i] == both[a] && now[j] == both[b]);
                    }
                } else {
                    assert(numbers(pool::failed_of(out)) =~= f.push(last.0 as int));
                    assert(now[i] == both[i]);
                    if j < both.len() {
                        assert(now[j] == both[j]);
                    }
                }
            }
        }
        assert(distinct_numbers(written_of(out))) by {
            let n = written_of(out);
            assert forall|i: int, j: int| 0 <= i < j < n.len() implies n[i] != n[j] by {
                assert(now[i] == n[i] && now[j] == n[j]);
            }
        }
        assert forall|x: int| 0 <= x < written_of(out).len() implies {
            let j = #[trigger] written_of(out)[x];
            &&& 0 <= j < legs.len()
            &&& held_after(legs, out).contains_key(legs[j])
            &&& held_after(legs, out)[legs[j]] == j
            &&& exists|y: int| 0 <= y < out.len() && (#[trigger] out[y]).0 == j && out[y].1 is Ok
        } by {
            if x < w.len() {
                let j = w[x];
                assert(written_of(out)[x] == j);
                let y = choose|y: int| 0 <= y < p.len() && (#[trigger] p[y]).0 == j && p[y].1 is Ok;
                assert(out[y].0 == j && out[y].1 is Ok);
                assert(legs[j] != legs[last.0 as int]);
            } else {
                assert(out[out.len() - 1].0 == written_of(out)[x]);
            }
        }
    }
}

/// Numbers as integers.
pub open spec fn numbers(v: Seq<usize>) -> Seq<int> {
    Seq::new(v.len(), |i: int| v[i] as int)
}

/// No number twice.
pub open spec fn distinct_numbers(v: Seq<int>) -> bool {
    forall|i: int, j: int| 0 <= i < j < v.len() ==> v[i] != v[j]
}

/// Every number is one of an attempt.
spec fn numbers_of(out: Seq<(usize, DomainResult<()>)>, v: Seq<int>) -> bool {
    forall|x: int|
        0 <= x < v.len() ==> exists|y: int|
            0 <= y < out.len() && (#[trigger] out[y]).0 == #[trigger] v[x]
}

proof fn lemma_present_one_more(a: Seq<Option<Seq<u8>>>, j: int, x: Seq<u8>)
    requires
        0 <= j < a.len(),
        a[j] is None,
    ensures
        erasure::present(a.update(j, Some(x))) == erasure::present(a) + 1,
    decreases a.len(),
{
    let b = a.update(j, Some(x));
    if j == a.len() - 1 {
        assert(b.drop_last() =~= a.drop_last());
    } else {
        assert(b.drop_last() =~= a.drop_last().update(j, Some(x)));
        lemma_present_one_more(a.drop_last(), j, x);
    }
}

/// Slots of which so many different ones are filled.
proof fn lemma_count_numbers(slots: Seq<Option<Seq<u8>>>, v: Seq<int>)
    requires
        distinct_numbers(v),
        forall|x: int|
            0 <= x < v.len() ==> 0 <= (#[trigger] v[x]) < slots.len() && slots[v[x]] is Some,
    ensures
        erasure::present(slots) >= v.len(),
    decreases v.len(),
{
    if v.len() > 0 {
        let head = v.drop_last();
        let at = v.last();
        assert(v[v.len() - 1] == at);
        let less = slots.update(at, None);
        assert forall|x: int| 0 <= x < head.len() implies 0 <= (#[trigger] head[x]) < less.len()
            && less[head[x]] is Some by {
            assert(head[x] == v[x]);
            assert(v[x] != at);
        }
        assert(distinct_numbers(head)) by {
            assert forall|i: int, j: int| 0 <= i < j < head.len() implies head[i] != head[j] by {
                assert(head[i] == v[i] && head[j] == v[j]);
            }
        }
        lemma_count_numbers(less, head);
        lemma_present_one_more(less, at, slots[at]->0);
        assert(less.update(at, Some(slots[at]->0)) =~= slots);
    }
}

proof fn lemma_held_with_spares(
    held: Map<ShardId, int>,
    failed: Seq<usize>,
    spares: Seq<ShardId>,
)
    requires
        pool::distinct(spares),
        spares.len() <= failed.len(),
        forall|x: int| 0 <= x < spares.len() ==> !held.contains_key(#[trigger] spares[x]),
    ensures
        forall|s: ShardId| #[trigger]
            held_with_spares(held, failed, spares).contains_key(s) <==> held.contains_key(s)
                || spares.contains(s),
        forall|s: ShardId| #[trigger]
            held.contains_key(s) ==> held_with_spares(held, failed, spares)[s] == held[s],
        forall|x: int|
            0 <= x < spares.len() ==> held_with_spares(held, failed, spares)[#[trigger] spares[x]]
                == failed[x],
    decreases spares.len(),
{
    if spares.len() > 0 {
        let p = spares.drop_last();
        assert(pool::distinct(p)) by {
            assert forall|i: int, j: int| 0 <= i < j < p.len() implies p[i] != p[j] by {
                assert(p[i] == spares[i] && p[j] == spares[j]);
            }
        }
        assert forall|x: int| 0 <= x < p.len() implies !held.contains_key(#[trigger] p[x]) by {
            assert(p[x] == spares[x]);
        }
        lemma_held_with_spares(held, failed, p);
        let last = spares.last();
        assert(spares[spares.len() - 1] == last);
        let h = held_with_spares(held, failed, spares);
        let g = held_with_spares(held, failed, p);
        assert forall|s: ShardId| #[trigger] h.contains_key(s) <==> held.contains_key(s)
            || spares.contains(s) by {
            assert(h.contains_key(s) <==> g.contains_key(s) || s == last);
            if p.contains(s) {
                let x = choose|x: int| 0 <= x < p.len() && p[x] == s;
                assert(spares[x] == s);
            }
            if spares.contains(s) && s != last {
                let x = choose|x: int| 0 <= x < spares.len() && spares[x] == s;
                assert(p[x] == s);
            }
        }
        assert forall|x: int| 0 <= x < spares.len() implies h[#[trigger] spares[x]] == failed[x] by {
            if x < p.len() {
                assert(p[x] == spares[x]);
                assert(spares[x] != last);
            }
        }
    }
}

/// A write of an object's pieces that reached its quorum can be read: the pieces are on
/// the shards of their ranks, or on the spare shards that took them over, and they are
/// enough.
pub proof fn quorum_writes_are_readable(
    data: Seq<u8>,
    k: nat,
    m: nat,
    legs: Seq<ShardId>,
    out: Seq<(usize, DomainResult<()>)>,
    spares: Seq<ShardId>,
    rest: Seq<ShardId>,
)
    requires
        erasure::codec_exists(k, m),
        data.len() <= u64::MAX,
        erasure::parity_fits(data, k, m),
        legs.len() <= k + m,
        pool::distinct(legs),
        pool::outcomes_fit(legs, out),
        pool::distinct(spares),
        spares.len() <= pool::failed_of(out).len(),
        forall|x: int|
            0 <= x < spares.len() ==> !legs.contains(#[trigger] spares[x]) && rest.contains(
                spares[x],
            ),
        // the quorum is never below the number of data pieces
        pool::acked_of(legs, out).len() + spares.len() >= k,
    ensures
        (Spread {
            data,
            k,
            m,
            held: held_with_spares(held_after(legs, out), pool::failed_of(out), spares),
        }).readable(legs, rest),
{
    let first = held_after(legs, out);
    let failed = pool::failed_of(out);
    let p = Spread { data, k, m, held: held_with_spares(first, failed, spares) };
    lemma_held_after(legs, out);
    assert forall|x: int| 0 <= x < spares.len() implies !first.contains_key(
        #[trigger] spares[x],
    ) by {
        if first.contains_key(spares[x]) {
            assert(legs[first[spares[x]]] == spares[x]);
        }
    }
    lemma_held_with_spares(first, failed, spares);
    assert forall|s: ShardId| #[trigger] p.held.contains_key(s) implies 0 <= p.held[s] < k + m by {
        if spares.contains(s) {
            let x = choose|x: int| 0 <= x < spares.len() && spares[x] == s;
            assert(p.held[spares[x]] == failed[x]);
        } else {
            assert(first.contains_key(s));
        }
    }
    assert forall|r: int|
        0 <= r < legs.len() && p.held.contains_key(#[trigger] legs[r]) implies p.held[legs[r]] == r by {
        if spares.contains(legs[r]) {
            let x = choose|x: int| 0 <= x < spares.len() && spares[x] == legs[r];
            assert(!legs.contains(spares[x]));
        }
        let j = first[legs[r]];
        assert(legs[j] == legs[r]);
        if j < r {
            assert(legs[j] != legs[r]);
        } else if j > r {
            assert(legs[r] != legs[j]);
        }
    }
    let w = written_of(out);
    let v = w + numbers(failed).take(spares.len() as int);
    let both = w + numbers(failed);
    let avail = p.within_reach(legs, rest);
    assert(distinct_numbers(v)) by {
        assert forall|i: int, j: int| 0 <= i < j < v.len() implies v[i] != v[j] by {
            assert(v[i] == both[i] && v[j] == both[j]);
        }
    }
    assert forall|x: int| 0 <= x < v.len() implies 0 <= (#[trigger] v[x]) < avail.len()
        && avail[v[x]] is Some by {
        if x < w.len() {
            let j = w[x];
            assert(v[x] == j);
            assert(first.contains_key(legs[j]));
            assert(p.held.contains_key(legs[j]));
            assert(p.held_by(legs, j));
        } else {
            let y = x - w.len();
            let s = spares[y];
            assert(v[x] == failed[y]);
            assert(spares.contains(s));
            assert(p.held.contains_key(s));
            assert(p.held[spares[y]] == failed[y]);
            assert(rest.contains(s));
            let z = choose|z: int| 0 <= z < rest.len() && rest[z] == s;
            assert(p.held.contains_key(rest[z]));
            assert(p.held_by(rest, failed[y] as int));
        }
    }
    lemma_count_numbers(avail, v);
}

/// A piece goes into the slot that its envelope names, if that is free, and touches no other;
/// any other body goes nowhere.
pub proof fn pieces_go_to_their_slots(
    slots: Seq<Option<Seq<u8>>>,
    h: PieceHeader,
    stripe: Seq<u8>,
    j: int,
)
    requires
        h.k > 0,
        h.m > 0,
        h.piece_idx < h.k + h.m,
        stripe.len() == piece::ceil_div(h.logical_len as nat, h.k as nat),
        0 <= j < slots.len(),
    ensures
        ({
            let body = h.encoded() + stripe;
            let after = filled(slots, body);
            &&& after.len() == slots.len()
            &&& j != h.piece_idx ==> after[j] == slots[j]
            &&& j == h.piece_idx && slots[j] is None ==> after[j] == Some(body)
            &&& slots[j] is Some ==> after[j] == slots[j]
        }),
{
    piece::piece_header_round_trip(h, stripe);
}

/// A whole body ends a read at once, at any length, wherever it is found.
pub proof fn whole_bodies_are_returned(v: EcView, body: Seq<u8>)
    requires
        v.phase is Probe || v.phase is Sweep,
        body.len() < 16 || body.take(4) != seq![0x4fu8, 0x5a, 0x45, 0x43],
    ensures
        v.step(EcEventView::Reply(Ok(body))).1 == EcActionView::Finish(Ok(body)),
        !v.step(EcEventView::Reply(Ok(body))).0.degraded <==> !v.degraded,
{
    assert(body.len() >= 4 ==> body.take(4) =~= body.subrange(0, 4));
}

proof fn lemma_who_is_asked(v: EcView, from: nat, to: nat, s: ShardId)
    ensures
        open_ranks(v, from, to).contains(s) <==> exists|r: int|
            from <= r < to && r != v.probe && v.slots[r] is None && r < v.targets.len()
                && #[trigger] v.targets[r] == s,
    decreases to,
{
    if to > from {
        let n = (to - 1) as nat;
        lemma_who_is_asked(v, from, n, s);
        let all = open_ranks(v, from, to);
        let rest = open_ranks(v, from, n);
        if rest.contains(s) {
            let i = choose|i: int| 0 <= i < rest.len() && rest[i] == s;
            assert(all[i] == s);
        }
        if all.contains(s) && !rest.contains(s) {
            let i = choose|i: int| 0 <= i < all.len() && all[i] == s;
            if i < rest.len() {
                assert(rest[i] == s);
            }
            assert(v.targets[n as int] == s);
        }
        if n != v.probe && v.slots[n as int] is None && n < v.targets.len() && v.targets[n as int]
            == s {
            assert(all[rest.len() as int] == s);
        }
    }
}

/// The first piece that a read meets sends it to the shards of all other data pieces: none of
/// them is left out, and the shard that gave the piece is not asked again.
pub proof fn data_pieces_are_gathered(
    v: EcView,
    i: usize,
    h: PieceHeader,
    stripe: Seq<u8>,
    r: int,
)
    requires
        v.phase == EcPhase::Probe(i),
        h.k > 0,
        h.m > 0,
        h.piece_idx < h.k + h.m,
        stripe.len() == piece::ceil_div(h.logical_len as nat, h.k as nat),
        0 <= r < h.k,
        r < v.targets.len(),
        r != i,
        r != h.piece_idx,
    ensures
        ({
            let (w, a) = v.step(EcEventView::Reply(Ok(h.encoded() + stripe)));
            &&& w.k == h.k && w.m == h.m && w.slots.len() == h.k + h.m
            &&& w.slots[h.piece_idx as int] == Some(h.encoded() + stripe)
            &&& w.slots[r] is None
            &&& (a matches EcActionView::AskAll(asked) && asked.contains(v.targets[r]))
        }),
{
    piece::piece_header_round_trip(h, stripe);
    let (w, a) = v.step(EcEventView::Reply(Ok(h.encoded() + stripe)));
    lemma_who_is_asked(w, 0, w.k, v.targets[r]);
    assert(w.slots[r] is None);
    assert(w.targets[r] == v.targets[r]);
}

/// Data pieces that are still missing send the read to the shards of the parity pieces; when
/// all are there the object is put together from them and nothing is degraded.
pub proof fn parity_is_read_when_needed(v: EcView, b: Seq<Seq<u8>>, r: int)
    requires
        v.phase is Data,
        v.slots.len() == v.k + v.m,
    ensures
        ({
            let slots = filled_all(v.slots, b);
            let (w, a) = v.step(EcEventView::Bodies(b));
            &&& (forall|j: int| 0 <= j < v.k ==> (#[trigger] slots[j]) is Some) ==> a
                == EcActionView::Finish(erasure::ec_decoded(slots, v.k, v.m)) && w.degraded
                == v.degraded
            &&& (exists|j: int| 0 <= j < v.k && (#[trigger] slots[j]) is None) && v.k <= r < v.k
                + v.m && r < v.targets.len() && r != v.probe && slots[r] is None ==> (
            a matches EcActionView::AskAll(asked) && asked.contains(v.targets[r]))
        }),
{
    let slots = filled_all(v.slots, b);
    let u = EcView { slots, ..v };
    lemma_who_is_asked(u, v.k, v.k + v.m, v.targets[r]);
    if v.k <= r < v.k + v.m && r < v.targets.len() && r != v.probe && slots[r] is None {
        assert(u.targets[r] == v.targets[r] && u.slots[r] is None);
    }
}

/// With parity an object is put together as soon as enough pieces are there, and noted as
/// degraded; before that every other shard is asked.
pub proof fn strays_are_looked_for(
    v: EcView,
    b: Seq<Seq<u8>>,
    i: usize,
    e: domain::ErrorView,
)
    requires
        v.phase is Parity,
    ensures
        ({
            let slots = filled_all(v.slots, b);
            let (w, a) = v.step(EcEventView::Bodies(b));
            &&& erasure::present(slots) >= v.k ==> a == EcActionView::Finish(
                erasure::ec_decoded(slots, v.k, v.m),
            ) && w.degraded
            &&& erasure::present(slots) < v.k && v.rest.len() > 0 ==> a == EcActionView::Ask(
                v.rest[0],
            )
        }),
        i + 1 < v.rest.len() ==> v.at(EcPhase::Strays(i)).step(EcEventView::Reply(Err(e))).1
            == EcActionView::Ask(v.rest[i + 1]),
{
}

/// A shard that fails is passed over: the next target is asked, then every other shard; only
/// when none has anything is an error told, and one that is no mere absence is kept.
pub proof fn failing_shards_are_passed_over(v: EcView, i: usize, e: domain::ErrorView)
    requires
        v.slots.len() == 0,
        v.k == 0,
    ensures
        v.phase == EcPhase::Probe(i) && i + 1 < v.targets.len() ==> v.step(
            EcEventView::Reply(Err(e)),
        ).1 == EcActionView::Ask(v.targets[i + 1]),
        v.phase == EcPhase::Probe(i) && i + 1 >= v.targets.len() && v.rest.len() > 0 ==> v.step(
            EcEventView::Reply(Err(e)),
        ).1 == EcActionView::Ask(v.rest[0]),
        v.phase == EcPhase::Sweep(i) && i + 1 < v.rest.len() ==> v.step(
            EcEventView::Reply(Err(e)),
        ).1 == EcActionView::Ask(v.rest[i + 1]),
        v.phase == EcPhase::Sweep(i) && i + 1 >= v.rest.len() ==> v.step(
            EcEventView::Reply(Err(e)),
        ).1 == EcActionView::Finish(Err(v.last_err)),
        v.phase == EcPhase::Probe(i) && !(e is NotFound) ==> v.step(
            EcEventView::Reply(Err(e)),
        ).0.last_err == e,
        v.phase == EcPhase::Probe(i) && e is NotFound ==> v.step(
            EcEventView::Reply(Err(e)),
        ).0.last_err == v.last_err,
{
}

proof fn lemma_missing(held: Seq<bool>, legs: nat)
    requires
        held.len() <= usize::MAX,
    ensures
        ({
            let missing = missing_ranks(held);
            &&& forall|i: int| 0 <= i < missing.len() ==> (#[trigger] missing[i]) < held.len()
                && !held[missing[i] as int]
            &&& forall|r: int| 0 <= r < held.len() && !held[r] ==> missing.contains(r as usize)
            &&& (forall|r: int| 0 <= r < legs && r < held.len() ==> held[r]) ==> {
                &&& held.len() <= legs ==> missing.len() == 0
                &&& held.len() > legs ==> missing.len() <= held.len() - legs
                &&& held.len() > legs ==> (missing.len() == held.len() - legs <==> forall|r: int|
                    legs <= r < held.len() ==> !held[r])
            }
        }),
    decreases held.len(),
{
    if held.len() > 0 {
        let p = held.drop_last();
        lemma_missing(p, legs);
        let all = missing_ranks(held);
        let rest = missing_ranks(p);
        let n = (held.len() - 1) as usize;
        assert(held[n as int] == held.last());
        assert forall|i: int| 0 <= i < all.len() implies (#[trigger] all[i]) < held.len()
            && !held[all[i] as int] by {
            if i < rest.len() {
                assert(all[i] == rest[i]);
                assert(p[rest[i] as int] == held[rest[i] as int]);
            }
        }
        assert forall|r: int| 0 <= r < held.len() && !held[r] implies all.contains(r as usize) by {
            if r < n {
                assert(!p[r]);
                let j = choose|j: int| 0 <= j < rest.len() && rest[j] == r as usize;
                assert(all[j] == r as usize);
            } else {
                assert(all[rest.len() as int] == r as usize);
            }
        }
        if forall|r: int| 0 <= r < legs && r < held.len() ==> held[r] {
            assert forall|r: int| 0 <= r < legs && r < p.len() implies p[r] by {
                assert(held[r]);
            }
            if held.len() > legs {
                if forall|r: int| legs <= r < held.len() ==> !held[r] {
                    assert forall|r: int| legs <= r < p.len() implies !p[r] by {
                        assert(!held[r]);
                    }
                    assert(!held[n as int]);
                }
                if all.len() == held.len() - legs {
                    assert forall|r: int| legs <= r < held.len() implies !held[r] by {
                        if r < n {
                            assert(p.len() > legs);
                            assert(rest.len() == p.len() - legs);
                            assert(!p[r]);
                        }
                    }
                }
            } else {
                assert(held[n as int]);
            }
        }
    }
}

/// An object is whole exactly when every shard of its ranks holds something, or when those of
/// its mirror copies do and no other.
pub proof fn whole_objects_are_left(h: Seq<bool>, total: nat, legs: nat)
    requires
        h.len() == total <= usize::MAX,
        legs <= total,
    ensures
        looks_healthy(h, total, legs) <==> (forall|i: int| 0 <= i < total ==> h[i]) || (forall|
            i: int,
        |
            0 <= i < total ==> h[i] == (i < legs)),
{
    let r = looks_healthy(h, total, legs);
    let missing = missing_ranks(h);
    lemma_missing(h, legs);
    if r && missing.len() == 0 {
        assert forall|i: int| 0 <= i < total implies h[i] by {
            if !h[i] {
                assert(missing.contains(i as usize));
            }
        }
    }
    if r && missing.len() > 0 {
        assert forall|i: int| 0 <= i < legs && i < h.len() implies h[i] by {
            if !h[i] {
                assert(missing.contains(i as usize));
                let j = choose|j: int| 0 <= j < missing.len() && missing[j] == i as usize;
                assert(missing[j] >= legs);
            }
        }
        if h.len() == legs {
            assert(missing.len() == 0);
        }
        assert forall|i: int| 0 <= i < total implies h[i] == (i < legs) by {
            if i >= legs {
                assert(!h[i]);
            }
        }
    }
    if forall|i: int| 0 <= i < total ==> h[i] {
        if missing.len() > 0 {
            assert(!h[missing[0] as int]);
        }
    }
    if forall|i: int| 0 <= i < total ==> h[i] == (i < legs) {
        assert forall|i: int| 0 <= i < legs && i < h.len() implies h[i] by {
            assert(h[i] == (i < legs));
        }
        assert forall|i: int| 0 <= i < missing.len() implies (#[trigger] missing[i]) >= legs by {
            assert(!h[missing[i] as int]);
        }
        assert forall|i: int| legs <= i < h.len() implies !h[i] by {
            assert(h[i] == (i < legs));
        }
    }
}

/// A rank is to be repaired exactly when it does not hold the piece that belongs there.
pub proof fn misplaced_pieces_are_repaired(reads: Seq<Option<Seq<u8>>>, r: int)
    requires
        0 <= r < reads.len() <= usize::MAX,
    ensures
        reads[r] is None ==> ranks_to_repair(reads).contains(r as usize),
        reads[r] is Some && piece::parsed_piece(reads[r]->0) is None ==> ranks_to_repair(
            reads,
        ).contains(r as usize),
        reads[r] is Some && piece::parsed_piece(reads[r]->0) is Some ==> (ranks_to_repair(
            reads,
        ).contains(r as usize) <==> (piece::parsed_piece(reads[r]->0)->0).piece_idx != r),
        forall|i: int|
            0 <= i < ranks_to_repair(reads).len() ==> (#[trigger] ranks_to_repair(reads)[i])
                < reads.len(),
    decreases reads.len(),
{
    let p = reads.drop_last();
    let rest = ranks_to_repair(p);
    let all = ranks_to_repair(reads);
    if p.len() > 0 {
        misplaced_pieces_are_repaired(
            p,
            if r < p.len() {
                r
            } else {
                0
            },
        );
    }
    assert forall|i: int| 0 <= i < all.len() implies (#[trigger] all[i]) < reads.len() by {
        if i < rest.len() {
            assert(all[i] == rest[i]);
        }
    }
    if r < p.len() {
        assert(p[r] == reads[r]);
        if rest.contains(r as usize) {
            let i = choose|i: int| 0 <= i < rest.len() && rest[i] == r as usize;
            assert(all[i] == r as usize);
        }
        if all.contains(r as usize) {
            let i = choose|i: int| 0 <= i < all.len() && all[i] == r as usize;
            assert(i < rest.len());
            assert(rest[i] == r as usize);
        }
    } else {
        if !in_place(r, reads[r]) {
            assert(all[rest.len() as int] == r as usize);
        } else if all.contains(r as usize) {
            let i = choose|i: int| 0 <= i < all.len() && all[i] == r as usize;
            assert(rest[i] < p.len());
        }
    }
}

/// A copy is missing exactly on the shards that should hold the key and do not.
pub proof fn missing_copies_are_named(
    desired: &Vec<ShardId>,
    held: &Vec<bool>,
    r: Vec<ShardId>,
    s: ShardId,
)
    requires
        desired@.len() == held@.len(),
        call_ensures(mirror_missing, (desired, held), r),
    ensures
        r@.contains(s) <==> exists|i: int|
            0 <= i < desired@.len() && #[trigger] desired@[i] == s && !held@[i],
{
    lemma_missing_copies(desired@, held@, desired@.len(), s);
}

proof fn lemma_missing_copies(desired: Seq<ShardId>, held: Seq<bool>, n: nat, s: ShardId)
    requires
        n <= desired.len(),
        desired.len() == held.len(),
    ensures
        missing_copies(desired, held, n).contains(s) <==> exists|i: int|
            0 <= i < n && #[trigger] desired[i] == s && !held[i],
    decreases n,
{
    if n > 0 {
        let b = (n - 1) as nat;
        lemma_missing_copies(desired, held, b, s);
        let all = missing_copies(desired, held, n);
        let rest = missing_copies(desired, held, b);
        if rest.contains(s) {
            let i = choose|i: int| 0 <= i < rest.len() && rest[i] == s;
            assert(all[i] == s);
        }
        if all.contains(s) && !rest.contains(s) {
            let i = choose|i: int| 0 <= i < all.len() && all[i] == s;
            if i < rest.len() {
                assert(rest[i] == s);
            }
            assert(desired[b as int] == s && !held[b as int]);
        }
        if desired[b as int] == s && !held[b as int] {
            assert(all[rest.len() as int] == s);
        }
    }
}

/// The plan of a repair names every rank that needs a piece, in order, and gives each its own
/// piece.
pub proof fn repair_plans_are_complete(ranks: Seq<usize>, pieces: Seq<Seq<u8>>, i: int)
    requires
        0 <= i < ranks.len(),
    ensures
        pieces_for(ranks, pieces).len() == ranks.len(),
        pieces_for(ranks, pieces)[i].0 == ranks[i],
        pieces_for(ranks, pieces)[i].1 == pieces[ranks[i] as int],
{
}

/// As many repairs run at once as are allowed and asked for, and always one.
pub proof fn workers_are_bounded(parallelism: usize, batch: usize, r: usize)
    requires
        batch >= 1,
        call_ensures(heal_workers, (parallelism, batch), r),
    ensures
        1 <= r <= batch,
        1 <= parallelism <= batch ==> r == parallelism,
        parallelism >= batch ==> r == batch,
{
}

} // verus!
