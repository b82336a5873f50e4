//! The repair of one key: mirrored objects get their copies back, erasure-coded
//! ones their pieces.
use vstd::prelude::*;
use vstd::string::*;
use crate::bytes;
use crate::domain::{DomainError, DomainResult, ShardId};
use crate::domain;
use crate::ec_pool::{fill_slot, is_healthy, mirror_missing, repair_plan, survey, tally};
use crate::ec_pool;
use crate::erasure;
use crate::piece::parse_piece_header;
use crate::piece;
use crate::pool;

verus! {

/// Where a repair stands: what was asked last.
#[derive(Clone, Copy, Debug, PartialEq, Eq, Structural)]
pub enum RepairPhase {
    /// does the shard of this rank hold the key?
    Held(usize),
    /// the first body that can be read
    Probe(usize),
    /// the piece at this rank
    Gather(usize),
    /// a stray piece on another shard
    Strays(usize),
    /// write a piece
    WritePiece(usize),
    /// does this shard hold its copy?
    Copies(usize),
    /// a copy to repair from
    Source(usize),
    /// write a copy
    WriteCopy(usize),
    Done,
}

/// What came back.
#[derive(Debug)]
pub enum RepairEvent {
    Has(bool),
    Body(Option<Vec<u8>>),
    Put(bool),
}

/// [`RepairEvent`] by value.
pub ghost enum RepairEventView {
    Has(bool),
    Body(Option<Seq<u8>>),
    Put(bool),
}

/// A body that may be missing, by value.
pub open spec fn body_view(b: Option<Vec<u8>>) -> Option<Seq<u8>> {
    match b {
        Some(x) => Some(x@),
        None => None,
    }
}

impl View for RepairEvent {
    type V = RepairEventView;

    open spec fn view(&self) -> RepairEventView {
        match *self {
            RepairEvent::Has(b) => RepairEventView::Has(b),
            RepairEvent::Body(b) => RepairEventView::Body(body_view(b)),
            RepairEvent::Put(ok) => RepairEventView::Put(ok),
        }
    }
}

/// What to do next.
#[derive(Debug)]
pub enum RepairAction {
    AskHas(ShardId),
    AskBody(ShardId),
    /// write a piece of an object of that length
    PutPiece(ShardId, Vec<u8>, u64),
    PutCopy(ShardId, Vec<u8>),
    /// how many writes succeeded, and how many are left to do
    Finish(DomainResult<(usize, usize)>),
}

/// [`RepairAction`] by value.
pub ghost enum RepairActionView {
    AskHas(ShardId),
    AskBody(ShardId),
    PutPiece(ShardId, Seq<u8>, u64),
    PutCopy(ShardId, Seq<u8>),
    Finish(Result<(nat, nat), domain::ErrorView>),
}

impl View for RepairAction {
    type V = RepairActionView;

    open spec fn view(&self) -> RepairActionView {
        match *self {
            RepairAction::AskHas(s) => RepairActionView::AskHas(s),
            RepairAction::AskBody(s) => RepairActionView::AskBody(s),
            RepairAction::PutPiece(s, p, len) => RepairActionView::PutPiece(s, p@, len),
            RepairAction::PutCopy(s, b) => RepairActionView::PutCopy(s, b@),
            RepairAction::Finish(r) => RepairActionView::Finish(
                match r {
                    Ok(n) => Ok((n.0 as nat, n.1 as nat)),
                    Err(e) => Err(e@),
                },
            ),
        }
    }
}

/// A repair of one key.
#[derive(Debug)]
pub struct Repair {
    /// ranks of an erasure-coded object
    pub total: usize,
    /// ranks that hold the copies of a mirrored one
    pub legs: usize,
    /// shards by rank
    pub targets: Vec<ShardId>,
    /// shards of the copies
    pub desired: Vec<ShardId>,
    pub n: usize,
    pub phase: RepairPhase,
    /// shards that are asked for a body
    pub order: Vec<ShardId>,
    pub held: Vec<bool>,
    pub reads: Vec<Option<Vec<u8>>>,
    pub slots: Vec<Option<Vec<u8>>>,
    /// ranks that need a piece
    pub ranks: Vec<usize>,
    pub k: usize,
    pub m: usize,
    pub object: u64,
    /// pieces to write, by rank
    pub plan: Vec<(usize, Vec<u8>)>,
    /// the body of a mirrored object, once it was read
    pub body: Option<Vec<u8>>,
    /// shards that need a copy
    pub missing: Vec<ShardId>,
    /// outcomes of the writes
    pub done: Vec<bool>,
    /// length of what is written
    pub unit: usize,
    /// how many bodies of that length were read
    pub base: usize,
}

/// [`Repair`] by value.
pub ghost struct RepairView {
    pub total: nat,
    pub legs: nat,
    pub targets: Seq<ShardId>,
    pub desired: Seq<ShardId>,
    pub n: nat,
    pub phase: RepairPhase,
    pub order: Seq<ShardId>,
    pub held: Seq<bool>,
    pub reads: Seq<Option<Seq<u8>>>,
    pub slots: Seq<Option<Seq<u8>>>,
    pub ranks: Seq<usize>,
    pub k: nat,
    pub m: nat,
    pub object: u64,
    pub plan: Seq<(usize, Seq<u8>)>,
    pub body: Option<Seq<u8>>,
    pub missing: Seq<ShardId>,
    pub done: Seq<bool>,
    pub unit: nat,
    pub base: nat,
}

impl View for Repair {
    type V = RepairView;

    open spec fn view(&self) -> RepairView {
        RepairView {
            total: self.total as nat,
            legs: self.legs as nat,
            targets: self.targets@,
            desired: self.desired@,
            n: self.n as nat,
            phase: self.phase,
            order: self.order@,
            held: self.held@,
            reads: erasure::slot_views(self.reads@),
            slots: erasure::slot_views(self.slots@),
            ranks: self.ranks@,
            k: self.k as nat,
            m: self.m as nat,
            object: self.object,
            plan: ec_pool::plan_views(self.plan@),
            body: body_view(self.body),
            missing: self.missing@,
            done: self.done@,
            unit: self.unit as nat,
            base: self.base as nat,
        }
    }
}

/// The pieces to write for the ranks that need one.
pub open spec fn planned(
    slots: Seq<Option<Seq<u8>>>,
    ranks: Seq<usize>,
    k: nat,
    m: nat,
) -> Result<Seq<(usize, Seq<u8>)>, domain::ErrorView> {
    if erasure::present(slots) < k {
        Err(
            domain::ErrorView::Io(
                "ec repair: fewer than "@ + crate::text::dec_chars(k) + " pieces"@,
            ),
        )
    } else if ranks.len() == 0 {
        Ok(Seq::empty())
    } else {
        match erasure::ec_decoded(slots, k, m) {
            Err(e) => Err(e),
            Ok(data) => if erasure::codec_exists(k, m) {
                Ok(ec_pool::pieces_for(ranks, erasure::ec_pieces(data, k, m)))
            } else {
                Err(domain::ErrorView::Io(erasure::init_error(k, m)))
            },
        }
    }
}

/// The shards that hold a copy, in order.
pub open spec fn holders_of(desired: Seq<ShardId>, held: Seq<bool>, n: nat) -> Seq<ShardId>
    decreases n,
{
    if n == 0 {
        Seq::empty()
    } else {
        let rest = holders_of(desired, held, (n - 1) as nat);
        if held[n - 1] {
            rest.push(desired[n - 1])
        } else {
            rest
        }
    }
}

/// All shards, in order.
pub open spec fn all_shards(n: nat) -> Seq<ShardId> {
    Seq::new(n, |i: int| pool::shard(i))
}

/// How many writes succeeded, and how many did not.
pub open spec fn outcome(done: Seq<bool>) -> (nat, nat) {
    let ok = done.filter(|x: bool| x).len();
    (ok, (done.len() - ok) as nat)
}

/// The smaller of two.
pub open spec fn least(a: nat, b: nat) -> nat {
    if a <= b {
        a
    } else {
        b
    }
}

impl RepairView {
    pub open spec fn at(self, phase: RepairPhase) -> RepairView {
        RepairView { phase, ..self }
    }

    pub open spec fn finished(self, r: Result<(nat, nat), domain::ErrorView>) -> (
        RepairView,
        RepairActionView,
    ) {
        (self.at(RepairPhase::Done), RepairActionView::Finish(r))
    }

    /// Which ranks hold the key, from rank `i` on; then whether anything is wrong.
    pub open spec fn held_from(self, i: int) -> (RepairView, RepairActionView) {
        if i < least(self.total, self.targets.len()) {
            (self.at(RepairPhase::Held(i as usize)), RepairActionView::AskHas(self.targets[i]))
        } else if ec_pool::looks_healthy(self.held, self.total, self.legs) {
            self.finished(Ok((0, 0)))
        } else {
            (RepairView {
                order: self.targets + pool::others_of(self.targets, self.n),
                ..self
            }).probe_from(0)
        }
    }

    /// The first body that can be read tells copies from pieces.
    pub open spec fn probe_from(self, i: int) -> (RepairView, RepairActionView) {
        if i < self.order.len() {
            (self.at(RepairPhase::Probe(i as usize)), RepairActionView::AskBody(self.order[i]))
        } else {
            self.finished(Err(domain::ErrorView::Io("repair: no readable source"@)))
        }
    }

    pub open spec fn probed(self, body: Seq<u8>) -> (RepairView, RepairActionView) {
        match piece::parsed_piece(body) {
            Some(h) => (RepairView {
                k: h.k as nat,
                m: h.m as nat,
                object: h.logical_len,
                reads: Seq::empty(),
                ..self
            }).gather_from(0),
            None => (RepairView { body: Some(body), held: Seq::empty(), ..self }).copies_from(0),
        }
    }

    /// The pieces at the ranks, from rank `r` on; then stray ones if too few are there.
    pub open spec fn gather_from(self, r: int) -> (RepairView, RepairActionView) {
        if r < least(self.k + self.m, self.targets.len()) {
            (self.at(RepairPhase::Gather(r as usize)), RepairActionView::AskBody(self.targets[r]))
        } else {
            let v = RepairView {
                slots: self.surveyed(),
                ranks: ec_pool::ranks_to_repair(self.reads),
                reads: Seq::empty(),
                ..self
            };
            if erasure::present(v.slots) < v.k {
                (RepairView { order: pool::others_of(v.targets, v.n), ..v }).strays_from(0)
            } else {
                v.plan_from()
            }
        }
    }

    /// The slots that the pieces read so far fill.
    pub open spec fn surveyed(self) -> Seq<Option<Seq<u8>>> {
        ec_pool::filled_all(
            ec_pool::free_slots(self.k + self.m),
            ec_pool::read_bodies(self.reads),
        )
    }

    pub open spec fn strays_from(self, i: int) -> (RepairView, RepairActionView) {
        if i < self.order.len() {
            (self.at(RepairPhase::Strays(i as usize)), RepairActionView::AskBody(self.order[i]))
        } else {
            self.plan_from()
        }
    }

    /// Which pieces are written.
    pub open spec fn plan_from(self) -> (RepairView, RepairActionView) {
        let v = RepairView { slots: Seq::empty(), ..self };
        match planned(self.slots, self.ranks, self.k, self.m) {
            Err(e) => v.finished(Err(e)),
            Ok(p) => if p.len() == 0 {
                v.finished(Ok((0, 0)))
            } else {
                (RepairView {
                    plan: p,
                    unit: p[0].1.len(),
                    base: v.k,
                    done: Seq::empty(),
                    ..v
                }).write_from(0)
            },
        }
    }

    pub open spec fn write_from(self, j: int) -> (RepairView, RepairActionView) {
        if j < self.plan.len() {
            (
                self.at(RepairPhase::WritePiece(j as usize)),
                RepairActionView::PutPiece(
                    self.targets[self.plan[j].0 as int],
                    self.plan[j].1,
                    self.object,
                ),
            )
        } else {
            self.finished(Ok(outcome(self.done)))
        }
    }

    /// Which copies are there, from number `i` on; then a body to copy.
    pub open spec fn copies_from(self, i: int) -> (RepairView, RepairActionView) {
        if i < self.desired.len() {
            (self.at(RepairPhase::Copies(i as usize)), RepairActionView::AskHas(self.desired[i]))
        } else {
            let v = RepairView {
                missing: ec_pool::missing_copies(self.desired, self.held, self.desired.len()),
                ..self
            };
            if v.missing.len() == 0 {
                v.finished(Ok((0, 0)))
            } else {
                match v.body {
                    Some(b) => v.with_body(b),
                    None => (RepairView {
                        order: holders_of(v.desired, v.held, v.desired.len()) + all_shards(v.n),
                        ..v
                    }).source_from(0),
                }
            }
        }
    }

    pub open spec fn source_from(self, i: int) -> (RepairView, RepairActionView) {
        if i < self.order.len() {
            (self.at(RepairPhase::Source(i as usize)), RepairActionView::AskBody(self.order[i]))
        } else {
            self.finished(Err(domain::ErrorView::NotFound))
        }
    }

    pub open spec fn with_body(self, b: Seq<u8>) -> (RepairView, RepairActionView) {
        (RepairView {
            body: Some(b),
            unit: b.len(),
            base: 1,
            done: Seq::empty(),
            ..self
        }).copy_from(0)
    }

    pub open spec fn copy_from(self, i: int) -> (RepairView, RepairActionView) {
        if i < self.missing.len() {
            (
                self.at(RepairPhase::WriteCopy(i as usize)),
                RepairActionView::PutCopy(self.missing[i], self.body->0),
            )
        } else {
            self.finished(Ok(outcome(self.done)))
        }
    }

    /// The next state and action.
    pub open spec fn step(self, ev: RepairEventView) -> (RepairView, RepairActionView) {
        match (self.phase, ev) {
            (RepairPhase::Held(i), RepairEventView::Has(b)) => (RepairView {
                held: self.held.push(b),
                ..self
            }).held_from(i + 1),
            (RepairPhase::Probe(i), RepairEventView::Body(b)) => match b {
                Some(x) => self.probed(x),
                None => self.probe_from(i + 1),
            },
            (RepairPhase::Gather(r), RepairEventView::Body(b)) => (RepairView {
                reads: self.reads.push(b),
                ..self
            }).gather_from(r + 1),
            (RepairPhase::Strays(i), RepairEventView::Body(b)) => match b {
                Some(x) => (RepairView {
                    slots: ec_pool::filled(self.slots, x),
                    ..self
                }).strays_from(i + 1),
                None => self.strays_from(i + 1),
            },
            (RepairPhase::WritePiece(j), RepairEventView::Put(ok)) => (RepairView {
                done: self.done.push(ok),
                ..self
            }).write_from(j + 1),
            (RepairPhase::Copies(i), RepairEventView::Has(b)) => (RepairView {
                held: self.held.push(b),
                ..self
            }).copies_from(i + 1),
            (RepairPhase::Source(i), RepairEventView::Body(b)) => match b {
                Some(x) => self.with_body(x),
                None => self.source_from(i + 1),
            },
            (RepairPhase::WriteCopy(i), RepairEventView::Put(ok)) => (RepairView {
                done: self.done.push(ok),
                ..self
            }).copy_from(i + 1),
            _ => self.finished(Err(domain::ErrorView::Io("repair: unexpected answer"@))),
        }
    }

    /// The slots that a plan made at this event is made from.
    pub open spec fn gathered(self, ev: RepairEventView) -> Seq<Option<Seq<u8>>> {
        match (self.phase, ev) {
            (RepairPhase::Gather(_), RepairEventView::Body(b)) => (RepairView {
                reads: self.reads.push(b),
                ..self
            }).surveyed(),
            (RepairPhase::Strays(_), RepairEventView::Body(Some(x))) => ec_pool::filled(
                self.slots,
                x,
            ),
            _ => self.slots,
        }
    }

    /// Whether a plan made at this event serves every object that the slots spell.
    pub open spec fn rebuilt(
        self,
        ev: RepairEventView,
        next: RepairView,
        a: RepairActionView,
    ) -> bool {
        (self.phase is Gather || self.phase is Strays) && ev is Body ==> rebuilds(
            next,
            a,
            self.gathered(ev),
            self.k,
            self.m,
        )
    }

    /// Bytes that a finished repair read and wrote.
    pub open spec fn cost(self) -> nat {
        self.unit * (self.base + outcome(self.done).0)
    }
}

/// From enough pieces of an object come pieces of that object: what is written is made of
/// them, and where nothing is left to do, nothing needed a piece.
pub open spec fn rebuilds(
    v: RepairView,
    a: RepairActionView,
    slots: Seq<Option<Seq<u8>>>,
    k: nat,
    m: nat,
) -> bool {
    forall|data: Seq<u8>| #[trigger]
        erasure::recoverable(slots, data, k, m) ==> {
            &&& v.phase is WritePiece ==> v.plan == ec_pool::pieces_for(
                v.ranks,
                erasure::ec_pieces(data, k, m),
            )
            &&& v.phase is Done ==> a == RepairActionView::Finish(Ok((0, 0)))
        }
}

/// How a repair starts: `desired` are the shards of the copies; where objects may be
/// erasure-coded, `ec` gives the number of pieces and the shards by rank.
pub open spec fn begun(
    ec: Option<(nat, Seq<ShardId>)>,
    desired: Seq<ShardId>,
    n: nat,
    replicas: nat,
) -> (RepairView, RepairActionView) {
    let blank = RepairView {
        total: 0,
        legs: 0,
        targets: Seq::empty(),
        desired,
        n,
        phase: RepairPhase::Done,
        order: Seq::empty(),
        held: Seq::empty(),
        reads: Seq::empty(),
        slots: Seq::empty(),
        ranks: Seq::empty(),
        k: 0,
        m: 0,
        object: 0,
        plan: Seq::empty(),
        body: None,
        missing: Seq::empty(),
        done: Seq::empty(),
        unit: 0,
        base: 0,
    };
    match ec {
        Some(e) => (RepairView {
            total: e.0,
            targets: e.1,
            legs: least(replicas, e.1.len()),
            ..blank
        }).held_from(0),
        None => blank.copies_from(0),
    }
}

/// How far a phase is from the end.
pub open spec fn stage(p: RepairPhase) -> nat {
    match p {
        RepairPhase::Held(_) => 7,
        RepairPhase::Probe(_) => 6,
        RepairPhase::Gather(_) => 5,
        RepairPhase::Strays(_) => 4,
        RepairPhase::Copies(_) => 3,
        RepairPhase::Source(_) => 2,
        RepairPhase::WritePiece(_) => 1,
        RepairPhase::WriteCopy(_) => 1,
        RepairPhase::Done => 0,
    }
}

/// How many of a phase's questions were asked.
pub open spec fn asked(p: RepairPhase) -> nat {
    match p {
        RepairPhase::Held(i) => i as nat,
        RepairPhase::Probe(i) => i as nat,
        RepairPhase::Gather(i) => i as nat,
        RepairPhase::Strays(i) => i as nat,
        RepairPhase::Copies(i) => i as nat,
        RepairPhase::Source(i) => i as nat,
        RepairPhase::WritePiece(i) => i as nat,
        RepairPhase::WriteCopy(i) => i as nat,
        RepairPhase::Done => 0,
    }
}

impl Repair {
    pub open spec fn wf(&self) -> bool {
        &&& self.n <= 0x1_0000
        &&& self.k <= 255 && self.m <= 255
        &&& self.phase matches RepairPhase::Held(i) ==> i < self.targets.len() && i < self.total
        &&& self.phase matches RepairPhase::Probe(i) ==> i < self.order.len()
        &&& self.phase matches RepairPhase::Gather(r) ==> r < self.targets.len() && r < self.k
            + self.m && self.reads@.len() == r && self.k > 0
        &&& self.phase matches RepairPhase::Strays(i) ==> i < self.order.len() && self.slots@.len()
            == self.k + self.m && self.k > 0 && self.ranks_fit()
        &&& self.phase matches RepairPhase::WritePiece(j) ==> j < self.plan.len() && self.plan_fits()
        &&& self.phase matches RepairPhase::Copies(i) ==> i < self.desired.len() && self.held@.len()
            == i
        &&& self.phase matches RepairPhase::Source(i) ==> i < self.order.len()
        &&& self.phase matches RepairPhase::WriteCopy(i) ==> i < self.missing.len() && self.body
            is Some
    }

    pub open spec fn ranks_fit(&self) -> bool {
        forall|i: int|
            0 <= i < self.ranks@.len() ==> (#[trigger] self.ranks@[i]) < self.k + self.m
                && self.ranks@[i] < self.targets@.len()
    }

    pub open spec fn plan_fits(&self) -> bool {
        forall|i: int| 0 <= i < self.plan@.len() ==> (#[trigger] self.plan@[i]).0 < self.targets@.len()
    }

    fn finished(&mut self, r: DomainResult<(usize, usize)>) -> (a: RepairAction)
        requires
            old(self).wf(),
        ensures
            (final(self)@, a@) == old(self)@.finished(
                match r {
                    Ok(x) => Ok((x.0 as nat, x.1 as nat)),
                    Err(e) => Err(e@),
                },
            ),
            final(self).wf(),
    {
        self.phase = RepairPhase::Done;
        RepairAction::Finish(r)
    }

    fn held_from(&mut self, i: usize) -> (a: RepairAction)
        requires
            old(self).wf(),
        ensures
            (final(self)@, a@) == old(self)@.held_from(i as int),
            final(self).wf(),
    {
        if i < self.total && i < self.targets.len() {
            self.phase = RepairPhase::Held(i);
            return RepairAction::AskHas(self.targets[i]);
        }
        if is_healthy(&self.held, self.total, self.legs) {
            return self.finished(Ok((0, 0)));
        }
        self.phase = RepairPhase::Done;
        self.order = pool::ask_order(&self.targets, self.n);
        self.probe_from(0)
    }

    fn probe_from(&mut self, i: usize) -> (a: RepairAction)
        requires
            old(self).wf() || old(self).at_rest(),
        ensures
            (final(self)@, a@) == old(self)@.probe_from(i as int),
            final(self).wf(),
    {
        if i < self.order.len() {
            self.phase = RepairPhase::Probe(i);
            RepairAction::AskBody(self.order[i])
        } else {
            self.phase = RepairPhase::Done;
            RepairAction::Finish(Err(DomainError::Io("repair: no readable source".to_owned())))
        }
    }

    /// The parts of the invariant that hold in every phase.
    pub open spec fn at_rest(&self) -> bool {
        self.n <= 0x1_0000 && self.k <= 255 && self.m <= 255
    }

    fn probed(&mut self, body: Vec<u8>) -> (a: RepairAction)
        requires
            old(self).wf(),
        ensures
            (final(self)@, a@) == old(self)@.probed(body@),
            final(self).wf(),
    {
        match parse_piece_header(body.as_slice()) {
            Some(h) => {
                self.k = h.k as usize;
                self.m = h.m as usize;
                self.object = h.logical_len;
                self.reads = Vec::new();
                assert(erasure::slot_views(self.reads@) =~= Seq::empty());
                self.gather_from(0)
            },
            None => {
                self.body = Some(body);
                self.held = Vec::new();
                self.copies_from(0)
            },
        }
    }

    fn gather_from(&mut self, r: usize) -> (a: RepairAction)
        requires
            old(self).at_rest(),
            old(self).k > 0,
            old(self).reads@.len() == r,
            r <= old(self).k + old(self).m,
            r <= old(self).targets@.len(),
        ensures
            (final(self)@, a@) == old(self)@.gather_from(r as int),
            final(self).wf(),
            rebuilds(final(self)@, a@, old(self)@.surveyed(), old(self)@.k, old(self)@.m),
    {
        if r < self.k + self.m && r < self.targets.len() {
            self.phase = RepairPhase::Gather(r);
            return RepairAction::AskBody(self.targets[r]);
        }
        let total: usize = self.k + self.m;
        let (slots, ranks) = survey(&self.reads, total);
        proof {
            lemma_ranks_below(erasure::slot_views(self.reads@));
        }
        self.phase = RepairPhase::Done;
        self.slots = slots;
        self.ranks = ranks;
        self.reads = Vec::new();
        assert(erasure::slot_views(self.reads@) =~= Seq::empty());
        if ec_pool::count_filled(&self.slots) < self.k {
            self.order = pool::others(&self.targets, self.n);
            self.strays_from(0)
        } else {
            self.plan_from()
        }
    }

    fn strays_from(&mut self, i: usize) -> (a: RepairAction)
        requires
            old(self).at_rest(),
            old(self).k > 0,
            old(self).slots@.len() == old(self).k + old(self).m,
            old(self).ranks_fit(),
        ensures
            (final(self)@, a@) == old(self)@.strays_from(i as int),
            final(self).wf(),
            rebuilds(final(self)@, a@, old(self)@.slots, old(self)@.k, old(self)@.m),
    {
        if i < self.order.len() {
            self.phase = RepairPhase::Strays(i);
            RepairAction::AskBody(self.order[i])
        } else {
            self.plan_from()
        }
    }

    fn plan_from(&mut self) -> (a: RepairAction)
        requires
            old(self).at_rest(),
            old(self).k > 0,
            old(self).ranks_fit(),
        ensures
            (final(self)@, a@) == old(self)@.plan_from(),
            final(self).wf(),
            rebuilds(final(self)@, a@, old(self)@.slots, old(self)@.k, old(self)@.m),
    {
        self.phase = RepairPhase::Done;
        let mut taken: Vec<Option<Vec<u8>>> = Vec::new();
        std::mem::swap(&mut taken, &mut self.slots);
        assert(erasure::slot_views(self.slots@) =~= Seq::empty());
        match repair_plan(taken, &self.ranks, self.k, self.m) {
            Err(e) => RepairAction::Finish(Err(e)),
            Ok(p) => {
                assert(ec_pool::plan_views(p@) =~= planned(
                    old(self)@.slots,
                    old(self)@.ranks,
                    old(self)@.k,
                    old(self)@.m,
                )->Ok_0);
                if p.len() == 0 {
                    return RepairAction::Finish(Ok((0, 0)));
                }
                assert(ec_pool::plan_views(p@)[0].1 == p@[0].1@);
                assert forall|i: int| 0 <= i < p@.len() implies (#[trigger] p@[i]).0
                    < self.targets@.len() by {
                    assert(ec_pool::plan_views(p@)[i].0 == p@[i].0);
                    assert(self.ranks@[i] < self.targets@.len());
                }
                self.unit = p[0].1.len();
                self.base = self.k;
                self.plan = p;
                self.done = Vec::new();
                assert(self.done@ =~= Seq::empty());
                self.write_from(0)
            },
        }
    }

    fn write_from(&mut self, j: usize) -> (a: RepairAction)
        requires
            old(self).at_rest(),
            old(self).plan_fits(),
        ensures
            (final(self)@, a@) == old(self)@.write_from(j as int),
            final(self).wf(),
            final(self)@.plan == old(self)@.plan,
            final(self)@.ranks == old(self)@.ranks,
    {
        if j < self.plan.len() {
            self.phase = RepairPhase::WritePiece(j);
            assert(self@.plan[j as int] == (self.plan@[j as int].0, self.plan@[j as int].1@));
            let piece = bytes::copy_range(self.plan[j].1.as_slice(), 0, self.plan[j].1.len());
            assert(piece@ =~= self.plan@[j as int].1@);
            let s = self.targets[self.plan[j].0];
            RepairAction::PutPiece(s, piece, self.object)
        } else {
            self.phase = RepairPhase::Done;
            RepairAction::Finish(Ok(tally(&self.done)))
        }
    }

    fn copies_from(&mut self, i: usize) -> (a: RepairAction)
        requires
            old(self).at_rest(),
            old(self).held@.len() == i,
            i <= old(self).desired@.len(),
        ensures
            (final(self)@, a@) == old(self)@.copies_from(i as int),
            final(self).wf(),
    {
        if i < self.desired.len() {
            self.phase = RepairPhase::Copies(i);
            return RepairAction::AskHas(self.desired[i]);
        }
        self.phase = RepairPhase::Done;
        self.missing = mirror_missing(&self.desired, &self.held);
        if self.missing.len() == 0 {
            return RepairAction::Finish(Ok((0, 0)));
        }
        match &self.body {
            Some(b) => {
                self.unit = b.len();
                self.base = 1;
                self.done = Vec::new();
                assert(self.done@ =~= Seq::empty());
                self.copy_from(0)
            },
            None => {
                self.order = sources(&self.desired, &self.held, self.n);
                self.source_from(0)
            },
        }
    }

    fn source_from(&mut self, i: usize) -> (a: RepairAction)
        requires
            old(self).at_rest(),
        ensures
            (final(self)@, a@) == old(self)@.source_from(i as int),
            final(self).wf(),
    {
        if i < self.order.len() {
            self.phase = RepairPhase::Source(i);
            RepairAction::AskBody(self.order[i])
        } else {
            self.phase = RepairPhase::Done;
            RepairAction::Finish(Err(DomainError::NotFound))
        }
    }

    fn copy_from(&mut self, i: usize) -> (a: RepairAction)
        requires
            old(self).at_rest(),
            old(self).body is Some,
        ensures
            (final(self)@, a@) == old(self)@.copy_from(i as int),
            final(self).wf(),
    {
        if i < self.missing.len() {
            self.phase = RepairPhase::WriteCopy(i);
            let copy = match &self.body {
                Some(b) => bytes::copy_range(b.as_slice(), 0, b.len()),
                None => Vec::new(),
            };
            assert(copy@ =~= self@.body->0);
            RepairAction::PutCopy(self.missing[i], copy)
        } else {
            self.phase = RepairPhase::Done;
            RepairAction::Finish(Ok(tally(&self.done)))
        }
    }

    /// Starts the repair of a key on a pool of `n` shards.
    ///
    /// `desired` are the shards of the copies.  Where objects may be
    /// erasure-coded, `ec` gives the number of pieces and the shards by rank.
    pub fn begin(
        ec: Option<(usize, Vec<ShardId>)>,
        desired: Vec<ShardId>,
        n: usize,
        replicas: usize,
    ) -> (r: (Repair, RepairAction))
        requires
            n <= 0x1_0000,
        ensures
            r.0.wf(),
            (r.0@, r.1@) == begun(
                match ec {
                    Some(e) => Some((e.0 as nat, e.1@)),
                    None => None,
                },
                desired@,
                n as nat,
                replicas as nat,
            ),
    {
        let mut run = Repair {
            total: 0,
            legs: 0,
            targets: Vec::new(),
            desired,
            n,
            phase: RepairPhase::Done,
            order: Vec::new(),
            held: Vec::new(),
            reads: Vec::new(),
            slots: Vec::new(),
            ranks: Vec::new(),
            k: 0,
            m: 0,
            object: 0,
            plan: Vec::new(),
            body: None,
            missing: Vec::new(),
            done: Vec::new(),
            unit: 0,
            base: 0,
        };
        assert(erasure::slot_views(run.slots@) =~= Seq::empty());
        assert(erasure::slot_views(run.reads@) =~= Seq::empty());
        assert(ec_pool::plan_views(run.plan@) =~= Seq::empty());
        match ec {
            Some((total, targets)) => {
                run.total = total;
                run.legs = if replicas <= targets.len() {
                    replicas
                } else {
                    targets.len()
                };
                run.targets = targets;
                let a = run.held_from(0);
                (run, a)
            },
            None => {
                let a = run.copies_from(0);
                (run, a)
            },
        }
    }

    /// Goes on after an answer.
    ///
    /// Pieces of one object are repaired to pieces of that object, each rank to
    /// its own.
    pub fn advance(&mut self, ev: RepairEvent) -> (a: RepairAction)
        requires
            old(self).wf(),
        ensures
            (final(self)@, a@) == old(self)@.step(ev@),
            final(self).wf(),
            old(self)@.rebuilt(ev@, final(self)@, a@),
    {
        match (self.phase, ev) {
            (RepairPhase::Held(i), RepairEvent::Has(b)) => {
                self.held.push(b);
                self.held_from(i + 1)
            },
            (RepairPhase::Probe(i), RepairEvent::Body(b)) => {
                match b {
                    Some(x) => self.probed(x),
                    None => self.probe_from(i + 1),
                }
            },
            (RepairPhase::Gather(r), RepairEvent::Body(b)) => {
                let ghost before = self@.reads;
                self.reads.push(b);
                assert(self@.reads =~= before.push(body_view(b)));
                self.gather_from(r + 1)
            },
            (RepairPhase::Strays(i), RepairEvent::Body(b)) => {
                match b {
                    Some(x) => {
                        fill_slot(&mut self.slots, x);
                        self.strays_from(i + 1)
                    },
                    None => self.strays_from(i + 1),
                }
            },
            (RepairPhase::WritePiece(j), RepairEvent::Put(ok)) => {
                self.done.push(ok);
                self.write_from(j + 1)
            },
            (RepairPhase::Copies(i), RepairEvent::Has(b)) => {
                self.held.push(b);
                self.copies_from(i + 1)
            },
            (RepairPhase::Source(i), RepairEvent::Body(b)) => {
                match b {
                    Some(x) => {
                        self.unit = x.len();
                        self.base = 1;
                        self.body = Some(x);
                        self.done = Vec::new();
                        assert(self.done@ =~= Seq::empty());
                        self.copy_from(0)
                    },
                    None => self.source_from(i + 1),
                }
            },
            (RepairPhase::WriteCopy(i), RepairEvent::Put(ok)) => {
                self.done.push(ok);
                self.copy_from(i + 1)
            },
            _ => self.finished(Err(DomainError::Io("repair: unexpected answer".to_owned()))),
        }
    }

    /// The bytes that the repair read and wrote.
    pub fn cost(&self) -> (r: u128)
        requires
            self.base + self.done@.len() <= u64::MAX,
        ensures
            r == self@.cost(),
    {
        let (ok, _) = tally(&self.done);
        proof {
            let unit = self.unit as int;
            let times: int = self.base + ok;
            assert(unit * times <= u64::MAX * u64::MAX) by (nonlinear_arith)
                requires
                    0 <= unit <= u64::MAX,
                    0 <= times <= u64::MAX,
            ;
        }
        self.unit as u128 * (self.base as u128 + ok as u128)
    }
}

/// The shards that a mirrored object is read from: the holders of a copy, then all.
fn sources(desired: &Vec<ShardId>, held: &Vec<bool>, n: usize) -> (r: Vec<ShardId>)
    requires
        desired@.len() == held@.len(),
        n <= 0x1_0000,
    ensures
        r@ == holders_of(desired@, held@, desired@.len()) + all_shards(n as nat),
{
    let mut out: Vec<ShardId> = Vec::new();
    let mut i: usize = 0;
    while i < desired.len()
        invariant
            i <= desired@.len(),
            desired@.len() == held@.len(),
            out@ == holders_of(desired@, held@, i as nat),
        decreases desired@.len() - i,
    {
        if held[i] {
            out.push(desired[i]);
        }
        i = i + 1;
    }
    let ghost holders = out@;
    let mut j: usize = 0;
    while j < n
        invariant
            j <= n <= 0x1_0000,
            out@ =~= holders + all_shards(j as nat),
        decreases n - j,
    {
        out.push(ShardId(j as u16));
        j = j + 1;
    }
    out
}

pub(crate) proof fn lemma_ranks_below(reads: Seq<Option<Seq<u8>>>)
    requires
        reads.len() <= usize::MAX,
    ensures
        forall|i: int|
            0 <= i < ec_pool::ranks_to_repair(reads).len() ==> (
            #[trigger] ec_pool::ranks_to_repair(reads)[i]) < reads.len(),
    decreases reads.len(),
{
    if reads.len() > 0 {
        let before = ec_pool::ranks_to_repair(reads.drop_last());
        let now = ec_pool::ranks_to_repair(reads);
        lemma_ranks_below(reads.drop_last());
        assert forall|i: int| 0 <= i < now.len() implies (#[trigger] now[i]) < reads.len() by {
            if i < before.len() {
                assert(now[i] == before[i]);
            }
        }
    }
}

/// A key whose shards all hold what they should is neither read nor written:
/// the answers to who holds it end the repair.
pub proof fn healthy_keys_are_left_alone(v: RepairView, b: bool)
    requires
        v.phase matches RepairPhase::Held(i) && i + 1 >= least(v.total, v.targets.len()),
        ec_pool::looks_healthy(v.held.push(b), v.total, v.legs),
    ensures
        v.step(RepairEventView::Has(b)).1 == RepairActionView::Finish(Ok((0, 0))),
{
}

/// Every answer brings a repair nearer to its end.
pub proof fn repairs_end(v: RepairView, ev: RepairEventView)
    requires
        asked(v.phase) < usize::MAX,
        !(v.phase is Done),
    ensures
        ({
            let w = v.step(ev).0;
            ||| stage(w.phase) < stage(v.phase)
            ||| stage(w.phase) == stage(v.phase) && asked(w.phase) == asked(v.phase) + 1
        }),
{
}

/// A copy is written only where one is missing, and it is the body that was read.
pub proof fn copies_fill_gaps(v: RepairView, ev: RepairEventView)
    requires
        asked(v.phase) < usize::MAX,
    ensures
        v.step(ev).1 matches RepairActionView::PutCopy(s, b) ==> v.step(ev).0.missing.contains(s)
            && v.step(ev).0.body->0 == b,
{
    let (w, a) = v.step(ev);
    if let RepairActionView::PutCopy(s, b) = a {
        let i = asked(w.phase) as int;
        assert(w.missing[i] == s);
    }
}

/// A piece is written only to the shard of the rank it belongs to.
pub proof fn pieces_go_to_their_ranks(v: RepairView, ev: RepairEventView)
    requires
        asked(v.phase) < usize::MAX,
    ensures
        v.step(ev).1 matches RepairActionView::PutPiece(s, p, len) ==> {
            let w = v.step(ev).0;
            exists|j: int|
                0 <= j < w.plan.len() && #[trigger] w.targets[w.plan[j].0 as int] == s && w.plan[j].1
                    == p
        },
{
    let (w, a) = v.step(ev);
    if let RepairActionView::PutPiece(s, p, len) = a {
        let j = asked(w.phase) as int;
        assert(w.targets[w.plan[j].0 as int] == s);
    }
}

/// A repair begins by asking the first shard: of the ranks where objects may be in pieces, of
/// the copies otherwise.
pub proof fn repairs_begin_with_the_first_shard(
    targets: Seq<ShardId>,
    total: nat,
    desired: Seq<ShardId>,
    n: nat,
    replicas: nat,
)
    ensures
        total > 0 && targets.len() > 0 ==> begun(Some((total, targets)), desired, n, replicas).1
            == RepairActionView::AskHas(targets[0]),
        desired.len() > 0 ==> begun(None, desired, n, replicas).1 == RepairActionView::AskHas(
            desired[0],
        ),
        begun(Some((total, targets)), desired, n, replicas).0.legs == if replicas <= targets.len() {
            replicas
        } else {
            targets.len()
        },
{
}

/// Once every rank has answered, a key with a gap is read, beginning with the shard of the
/// first rank; one without is done.
pub proof fn damaged_keys_are_read(v: RepairView, i: usize, b: bool)
    requires
        v.phase == RepairPhase::Held(i),
        i + 1 == v.total <= usize::MAX,
        v.total == v.targets.len(),
        v.held.len() == i,
        v.legs <= v.total,
    ensures
        ({
            let h = v.held.push(b);
            let whole = (forall|j: int| 0 <= j < v.total ==> h[j]) || (forall|j: int|
                0 <= j < v.total ==> h[j] == (j < v.legs));
            &&& whole ==> v.step(RepairEventView::Has(b)).1 == RepairActionView::Finish(Ok((0, 0)))
            &&& !whole ==> v.step(RepairEventView::Has(b)).1 == RepairActionView::AskBody(
                v.targets[0],
            )
        }),
{
    let h = v.held.push(b);
    ec_pool::whole_objects_are_left(h, v.total, v.legs);
    let order = v.targets + pool::others_of(v.targets, v.n);
    assert(order[0] == v.targets[0]);
}

/// While ranks are left, each is asked in turn.
pub proof fn every_rank_is_asked(v: RepairView, i: usize, b: bool)
    requires
        v.phase == RepairPhase::Held(i),
        i + 1 < v.total,
        i + 1 < v.targets.len(),
    ensures
        v.step(RepairEventView::Has(b)).1 == RepairActionView::AskHas(v.targets[i + 1]),
        v.step(RepairEventView::Has(b)).0.held == v.held.push(b),
{
}

/// The first body that can be read decides: a piece sends the repair to the pieces of all
/// ranks, any other body is copied. Where none can be read the repair fails.
pub proof fn the_first_body_decides(
    v: RepairView,
    i: usize,
    h: piece::PieceHeader,
    stripe: Seq<u8>,
    body: Seq<u8>,
)
    requires
        v.phase == RepairPhase::Probe(i),
        h.k > 0,
        h.m > 0,
        h.piece_idx < h.k + h.m,
        stripe.len() == piece::ceil_div(h.logical_len as nat, h.k as nat),
        body.len() < 16 || body.take(4) != seq![0x4fu8, 0x5a, 0x45, 0x43],
        v.targets.len() > 0,
        v.desired.len() > 0,
    ensures
        ({
            let (w, a) = v.step(RepairEventView::Body(Some(h.encoded() + stripe)));
            &&& a == RepairActionView::AskBody(v.targets[0])
            &&& w.phase == RepairPhase::Gather(0)
            &&& w.k == h.k && w.m == h.m && w.object == h.logical_len
        }),
        ({
            let (w, a) = v.step(RepairEventView::Body(Some(body)));
            &&& a == RepairActionView::AskHas(v.desired[0])
            &&& w.phase == RepairPhase::Copies(0)
            &&& w.body == Some(body)
        }),
        i + 1 < v.order.len() ==> v.step(RepairEventView::Body(None)).1
            == RepairActionView::AskBody(v.order[i + 1]),
        i + 1 >= v.order.len() ==> (v.step(RepairEventView::Body(None)).1
            matches RepairActionView::Finish(Err(_))),
{
    piece::piece_header_round_trip(h, stripe);
    assert(body.len() >= 4 ==> body.take(4) =~= body.subrange(0, 4));
}

/// Every rank of the code is read, in order, whatever the ones before it gave.
pub proof fn every_piece_is_read(v: RepairView, r: usize, b: Option<Seq<u8>>)
    requires
        v.phase == RepairPhase::Gather(r),
        r + 1 < v.k + v.m,
        r + 1 < v.targets.len(),
    ensures
        v.step(RepairEventView::Body(b)).1 == RepairActionView::AskBody(v.targets[r + 1]),
        v.step(RepairEventView::Body(b)).0.reads == v.reads.push(b),
{
}

/// The body that was read is written to every shard that lacks a copy, whole and in turn; the
/// report counts the writes that succeeded and those that did not.
pub proof fn copies_are_written_whole(v: RepairView, i: usize, body: Seq<u8>, ok: bool)
    requires
        v.phase == RepairPhase::WriteCopy(i),
        v.body == Some(body),
        v.done.len() == i,
    ensures
        i + 1 < v.missing.len() ==> v.step(RepairEventView::Put(ok)).1 == RepairActionView::PutCopy(
            v.missing[i + 1],
            body,
        ),
        i + 1 >= v.missing.len() ==> v.step(RepairEventView::Put(ok)).1
            == RepairActionView::Finish(
            Ok(
                (
                    outcome(v.done).0 + if ok {
                        1nat
                    } else {
                        0
                    },
                    outcome(v.done).1 + if ok {
                        0nat
                    } else {
                        1
                    },
                ),
            ),
        ),
{
    writes_are_counted(v.done, ok);
}

/// The pieces of the plan are written in turn, each to the shard of its rank and with the
/// object's length; the report counts them.
pub proof fn pieces_are_written_in_turn(v: RepairView, j: usize, ok: bool)
    requires
        v.phase == RepairPhase::WritePiece(j),
        v.done.len() == j,
    ensures
        j + 1 < v.plan.len() ==> v.step(RepairEventView::Put(ok)).1 == RepairActionView::PutPiece(
            v.targets[v.plan[j + 1].0 as int],
            v.plan[j + 1].1,
            v.object,
        ),
        j + 1 >= v.plan.len() ==> v.step(RepairEventView::Put(ok)).1 == RepairActionView::Finish(
            Ok(
                (
                    outcome(v.done).0 + if ok {
                        1nat
                    } else {
                        0
                    },
                    outcome(v.done).1 + if ok {
                        0nat
                    } else {
                        1
                    },
                ),
            ),
        ),
{
    writes_are_counted(v.done, ok);
}

/// A write that succeeds is counted as done, one that fails as left.
pub proof fn writes_are_counted(done: Seq<bool>, ok: bool)
    ensures
        outcome(Seq::empty()) == (0nat, 0nat),
        outcome(done.push(ok)).0 == outcome(done).0 + if ok {
            1nat
        } else {
            0
        },
        outcome(done.push(ok)).1 == outcome(done).1 + if ok {
            0nat
        } else {
            1
        },
{
    reveal(Seq::filter);
    assert(done.push(ok).drop_last() =~= done);
    let f = |x: bool| x;
    lemma_filtered(done);
    assert(Seq::<bool>::empty().filter(f).len() == 0);
}

proof fn lemma_filtered(done: Seq<bool>)
    ensures
        done.filter(|x: bool| x).len() <= done.len(),
    decreases done.len(),
{
    reveal(Seq::filter);
    if done.len() > 0 {
        lemma_filtered(done.drop_last());
    }
}

/// A mirrored key is asked for at every shard that should hold it; with nothing missing the
/// repair is done, and with a body at hand the first gap is filled at once.
pub proof fn gaps_are_filled(v: RepairView, i: usize, b: bool, body: Seq<u8>)
    requires
        v.phase == RepairPhase::Copies(i),
        v.held.len() == i,
        i < v.desired.len(),
    ensures
        i + 1 < v.desired.len() ==> v.step(RepairEventView::Has(b)).1 == RepairActionView::AskHas(
            v.desired[i + 1],
        ),
        i + 1 == v.desired.len() && (forall|j: int| 0 <= j < i ==> v.held[j]) && b ==> v.step(
            RepairEventView::Has(b),
        ).1 == RepairActionView::Finish(Ok((0, 0))),
        i + 1 == v.desired.len() && (forall|j: int| 0 <= j < i ==> v.held[j]) && !b && v.body
            == Some(body) ==> v.step(RepairEventView::Has(b)).1 == RepairActionView::PutCopy(
            v.desired[i as int],
            body,
        ),
{
    let h = v.held.push(b);
    if i + 1 == v.desired.len() && (forall|j: int| 0 <= j < i ==> v.held[j]) {
        lemma_none_missing(v.desired, h, i as nat);
        assert(h[i as int] == b);
        let m = ec_pool::missing_copies(v.desired, h, (i + 1) as nat);
        assert(b ==> m.len() == 0);
        assert(!b ==> m =~= seq![v.desired[i as int]]);
    }
}

proof fn lemma_none_missing(desired: Seq<ShardId>, held: Seq<bool>, n: nat)
    requires
        n <= held.len(),
        forall|j: int| 0 <= j < n ==> held[j],
    ensures
        ec_pool::missing_copies(desired, held, n) == Seq::<ShardId>::empty(),
    decreases n,
{
    if n > 0 {
        lemma_none_missing(desired, held, (n - 1) as nat);
    }
}

/// What a repair costs is its unit, once for every body read and every write that succeeded.
pub proof fn repairs_have_their_cost(v: RepairView, ok: bool)
    ensures
        v.done.len() == 0 ==> v.cost() == v.unit * v.base,
        (RepairView { done: v.done.push(ok), ..v }).cost() == v.cost() + if ok {
            v.unit
        } else {
            0
        },
{
    writes_are_counted(v.done, ok);
    if v.done.len() == 0 {
        assert(v.done =~= Seq::empty());
    }
    let o = outcome(v.done).0;
    assert(v.unit * (v.base + o + 1) == v.unit * (v.base + o) + v.unit) by (nonlinear_arith);
}

/// A copy is looked for first at the shards that were seen to hold one, then at every shard.
pub proof fn copies_are_looked_for_everywhere(
    desired: Seq<ShardId>,
    held: Seq<bool>,
    n: nat,
    s: ShardId,
)
    requires
        held.len() == desired.len(),
        n <= 0x1_0000,
    ensures
        all_shards(n).len() == n,
        s.0 < n ==> all_shards(n)[s.0 as int] == s,
        holders_of(desired, held, desired.len()).contains(s) <==> exists|i: int|
            0 <= i < desired.len() && #[trigger] desired[i] == s && held[i],
{
    lemma_holders(desired, held, desired.len(), s);
}

proof fn lemma_holders(desired: Seq<ShardId>, held: Seq<bool>, n: nat, s: ShardId)
    requires
        n <= desired.len() == held.len(),
    ensures
        holders_of(desired, held, n).contains(s) <==> exists|i: int|
            0 <= i < n && #[trigger] desired[i] == s && held[i],
    decreases n,
{
    if n > 0 {
        let p = holders_of(desired, held, (n - 1) as nat);
        let w = holders_of(desired, held, n);
        lemma_holders(desired, held, (n - 1) as nat, s);
        if p.contains(s) {
            let j = choose|j: int| 0 <= j < p.len() && p[j] == s;
            assert(w[j] == s);
        }
        if held[n - 1] && desired[n - 1] == s {
            assert(w[p.len() as int] == s);
        }
        if w.contains(s) {
            let j = choose|j: int| 0 <= j < w.len() && w[j] == s;
            if j < p.len() {
                assert(p[j] == s);
            }
        }
    }
}

/// No rank beyond the last one of the code, or the last shard, is read.
pub proof fn reading_ends_with_the_last_rank(v: RepairView, r: usize, b: Option<Seq<u8>>)
    requires
        v.phase == RepairPhase::Gather(r),
        r + 1 >= v.k + v.m || r + 1 >= v.targets.len(),
    ensures
        !(v.step(RepairEventView::Body(b)).0.phase is Gather),
{
}

} // verus!
