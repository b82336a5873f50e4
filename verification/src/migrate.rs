//! Migration of a mirrored object to erasure coding.
//!
//! The object stays readable at every point: first the pieces that go to shards
//! without a copy are written and read back; only when all of them came back
//! bit for bit are the copies replaced by pieces; stray copies go last.
use vstd::prelude::*;
use vstd::string::*;
use crate::bytes;
use crate::domain::{DomainError, DomainResult, ShardId};
use crate::domain;
use crate::ec_pool;
use crate::erasure::{ec_encode, EcConfig};
use crate::erasure;
use crate::piece::parse_piece_header;
use crate::piece;
use crate::pool;
use crate::text;

verus! {

/// What became of a key.
#[derive(Clone, Copy, Debug, PartialEq, Eq, Structural)]
pub enum MigrateOutcome {
    Migrated,
    SkippedSmall,
    SkippedEc,
    CanaryFailed,
}

/// Where a migration stands: what was asked last.
#[derive(Clone, Copy, Debug, PartialEq, Eq, Structural)]
pub enum MigPhase {
    /// does the shard of this rank, behind the copies, hold the key?
    TailHas(usize),
    /// length of the piece at this rank
    OldStat(usize),
    /// the piece at this rank
    OldRead(usize),
    /// note the object length in the row at this rank
    OldSet(usize),
    /// does the shard of this rank hold a copy?
    HeadHas(usize),
    /// length of the first copy
    Size,
    /// the copy of this holder
    Body(usize),
    /// write the piece of this rank behind the copies
    TailPut(usize),
    /// read it back
    TailCheck(usize),
    /// remove the piece of this rank again
    Rollback(usize),
    /// replace the copy at this rank by a piece
    HeadPut(usize),
    /// read it back
    HeadCheck(usize),
    /// remove what another shard holds
    Stray(usize),
    Done,
}

/// What came back.
#[derive(Debug)]
pub enum MigEvent {
    Has(bool),
    /// body length and object length; none if that failed
    Stat(Option<(u64, Option<u64>)>),
    Body(DomainResult<Vec<u8>>),
    Put(DomainResult<()>),
    /// nothing to report
    Ack,
}

/// [`MigEvent`] by value.
pub ghost enum MigEventView {
    Has(bool),
    Stat(Option<(u64, Option<u64>)>),
    Body(Result<Seq<u8>, domain::ErrorView>),
    Put(Option<domain::ErrorView>),
    Ack,
}

impl View for MigEvent {
    type V = MigEventView;

    open spec fn view(&self) -> MigEventView {
        match *self {
            MigEvent::Has(b) => MigEventView::Has(b),
            MigEvent::Stat(s) => MigEventView::Stat(s),
            MigEvent::Body(r) => MigEventView::Body(domain::bytes_result(r)),
            MigEvent::Put(r) => MigEventView::Put(
                match r {
                    Ok(_) => None,
                    Err(e) => Some(e@),
                },
            ),
            MigEvent::Ack => MigEventView::Ack,
        }
    }
}

/// What to do next.
#[derive(Debug)]
pub enum MigAction {
    AskHas(ShardId),
    AskStat(ShardId),
    AskBody(ShardId),
    /// note the object length
    SetLength(ShardId, u64),
    /// write a piece of an object of that length
    PutPiece(ShardId, Vec<u8>, u64),
    Delete(ShardId),
    Finish(DomainResult<MigrateOutcome>),
}

/// [`MigAction`] by value.
pub ghost enum MigActionView {
    AskHas(ShardId),
    AskStat(ShardId),
    AskBody(ShardId),
    SetLength(ShardId, u64),
    PutPiece(ShardId, Seq<u8>, u64),
    Delete(ShardId),
    Finish(Result<MigrateOutcome, domain::ErrorView>),
}

impl View for MigAction {
    type V = MigActionView;

    open spec fn view(&self) -> MigActionView {
        match *self {
            MigAction::AskHas(s) => MigActionView::AskHas(s),
            MigAction::AskStat(s) => MigActionView::AskStat(s),
            MigAction::AskBody(s) => MigActionView::AskBody(s),
            MigAction::SetLength(s, n) => MigActionView::SetLength(s, n),
            MigAction::PutPiece(s, p, n) => MigActionView::PutPiece(s, p@, n),
            MigAction::Delete(s) => MigActionView::Delete(s),
            MigAction::Finish(r) => MigActionView::Finish(
                match r {
                    Ok(o) => Ok(o),
                    Err(e) => Err(e@),
                },
            ),
        }
    }
}

/// A migration of one key.
#[derive(Debug)]
pub struct Migration {
    /// shards by rank; piece `r` goes to `targets[r]`
    pub targets: Vec<ShardId>,
    /// all other shards
    pub rest: Vec<ShardId>,
    pub cfg: EcConfig,
    /// ranks below this hold the copies
    pub legs: usize,
    pub phase: MigPhase,
    /// ranks that hold a copy
    pub holders: Vec<usize>,
    pub pieces: Vec<Vec<u8>>,
    pub body_len: u64,
    /// why the tail is rolled back; none for a failed comparison
    pub fault: Option<DomainError>,
    /// pieces that need a repair afterwards
    pub heals: u64,
    /// rows that got their object length
    pub backfilled: u64,
    /// bytes of old pieces read
    pub old_bytes: u64,
}

/// [`Migration`] by value.
pub ghost struct MigView {
    pub targets: Seq<ShardId>,
    pub rest: Seq<ShardId>,
    pub cfg: EcConfig,
    pub legs: nat,
    pub phase: MigPhase,
    pub holders: Seq<usize>,
    pub pieces: Seq<Seq<u8>>,
    pub body_len: u64,
    pub fault: Option<domain::ErrorView>,
    pub heals: nat,
    pub backfilled: nat,
    pub old_bytes: nat,
}

impl View for Migration {
    type V = MigView;

    open spec fn view(&self) -> MigView {
        MigView {
            targets: self.targets@,
            rest: self.rest@,
            cfg: self.cfg,
            legs: self.legs as nat,
            phase: self.phase,
            holders: self.holders@,
            pieces: erasure::views(self.pieces@),
            body_len: self.body_len,
            fault: pool::error_view(self.fault),
            heals: self.heals as nat,
            backfilled: self.backfilled as nat,
            old_bytes: self.old_bytes as nat,
        }
    }
}

impl MigView {
    pub open spec fn total(self) -> nat {
        (self.cfg.data + self.cfg.parity) as nat
    }

    pub open spec fn at(self, phase: MigPhase) -> MigView {
        MigView { phase, ..self }
    }

    pub open spec fn finished(self, r: Result<MigrateOutcome, domain::ErrorView>) -> (
        MigView,
        MigActionView,
    ) {
        (self.at(MigPhase::Done), MigActionView::Finish(r))
    }

    /// Look for pieces behind the copies, from rank `r` on.
    pub open spec fn tail_has(self, r: int) -> (MigView, MigActionView) {
        if r < self.total() {
            (self.at(MigPhase::TailHas(r as usize)), MigActionView::AskHas(self.targets[r]))
        } else {
            self.head_has(0)
        }
    }

    /// Look for old pieces without an object length, from rank `r` on.
    pub open spec fn old_stat(self, r: int) -> (MigView, MigActionView) {
        if r < self.total() {
            (self.at(MigPhase::OldStat(r as usize)), MigActionView::AskStat(self.targets[r]))
        } else {
            self.finished(Ok(MigrateOutcome::SkippedEc))
        }
    }

    /// Look for copies, from rank `r` on.
    pub open spec fn head_has(self, r: int) -> (MigView, MigActionView) {
        if r < self.legs {
            (self.at(MigPhase::HeadHas(r as usize)), MigActionView::AskHas(self.targets[r]))
        } else if self.holders.len() == 0 {
            self.finished(
                Err(domain::ErrorView::Io("migrate: no mirror source on top-R"@)),
            )
        } else {
            (
                self.at(MigPhase::Size),
                MigActionView::AskStat(self.targets[self.holders[0] as int]),
            )
        }
    }

    /// Read a copy, from holder `j` on.
    pub open spec fn read_body(self, j: int) -> (MigView, MigActionView) {
        if j < self.holders.len() {
            (
                self.at(MigPhase::Body(j as usize)),
                MigActionView::AskBody(self.targets[self.holders[j] as int]),
            )
        } else {
            self.finished(
                Err(domain::ErrorView::Io("migrate: mirror body unreadable"@)),
            )
        }
    }

    /// Write the pieces behind the copies, from rank `r` on.
    pub open spec fn tail_put(self, r: int) -> (MigView, MigActionView) {
        if r < self.total() {
            (
                self.at(MigPhase::TailPut(r as usize)),
                MigActionView::PutPiece(self.targets[r], self.pieces[r], self.body_len),
            )
        } else {
            self.head_put(0)
        }
    }

    /// Remove the pieces behind the copies again, from rank `r` on.
    pub open spec fn rollback(self, r: int) -> (MigView, MigActionView) {
        if r < self.total() {
            (self.at(MigPhase::Rollback(r as usize)), MigActionView::Delete(self.targets[r]))
        } else {
            match self.fault {
                Some(e) => self.finished(Err(e)),
                None => self.finished(Ok(MigrateOutcome::CanaryFailed)),
            }
        }
    }

    /// Replace the copies, from rank `r` on.
    pub open spec fn head_put(self, r: int) -> (MigView, MigActionView) {
        if r < self.legs {
            (
                self.at(MigPhase::HeadPut(r as usize)),
                MigActionView::PutPiece(self.targets[r], self.pieces[r], self.body_len),
            )
        } else {
            self.stray(0)
        }
    }

    /// Remove stray copies, from shard `i` of the others on.
    pub open spec fn stray(self, i: int) -> (MigView, MigActionView) {
        if i < self.rest.len() {
            (self.at(MigPhase::Stray(i as usize)), MigActionView::Delete(self.rest[i]))
        } else {
            self.finished(Ok(MigrateOutcome::Migrated))
        }
    }

    /// A copy was read: decide, and cut it.
    pub open spec fn cut(self, body: Seq<u8>) -> (MigView, MigActionView) {
        if piece::parsed_piece(body) is Some {
            self.finished(Ok(MigrateOutcome::SkippedEc))
        } else if body.len() < self.cfg.min_size {
            self.finished(Ok(MigrateOutcome::SkippedSmall))
        } else if !erasure::codec_exists(self.cfg.data as nat, self.cfg.parity as nat) {
            self.finished(
                Err(
                    domain::ErrorView::Io(
                        erasure::init_error(self.cfg.data as nat, self.cfg.parity as nat),
                    ),
                ),
            )
        } else {
            (MigView {
                pieces: erasure::ec_pieces(body, self.cfg.data as nat, self.cfg.parity as nat),
                body_len: body.len() as u64,
                ..self
            }).tail_put(self.legs as int)
        }
    }

    /// The next state and action.
    pub open spec fn step(self, ev: MigEventView) -> (MigView, MigActionView) {
        match (self.phase, ev) {
            (MigPhase::TailHas(r), MigEventView::Has(b)) => if b {
                self.old_stat(0)
            } else {
                self.tail_has(r + 1)
            },
            (MigPhase::OldStat(r), MigEventView::Stat(s)) => match s {
                Some((_, None)) => (
                    self.at(MigPhase::OldRead(r)),
                    MigActionView::AskBody(self.targets[r as int]),
                ),
                _ => self.old_stat(r + 1),
            },
            (MigPhase::OldRead(r), MigEventView::Body(b)) => match b {
                Ok(body) => {
                    let v = MigView { old_bytes: self.old_bytes + body.len(), ..self };
                    match piece::parsed_piece(body) {
                        Some(h) => (
                            v.at(MigPhase::OldSet(r)),
                            MigActionView::SetLength(self.targets[r as int], h.logical_len),
                        ),
                        None => v.old_stat(r + 1),
                    }
                },
                Err(_) => self.old_stat(r + 1),
            },
            (MigPhase::OldSet(r), MigEventView::Has(set)) => (MigView {
                backfilled: self.backfilled + if set {
                    1nat
                } else {
                    0nat
                },
                ..self
            }).old_stat(r + 1),
            (MigPhase::HeadHas(r), MigEventView::Has(b)) => (MigView {
                holders: if b {
                    self.holders.push(r)
                } else {
                    self.holders
                },
                ..self
            }).head_has(r + 1),
            (MigPhase::Size, MigEventView::Stat(s)) => match s {
                Some((n, _)) => if n < self.cfg.min_size {
                    self.finished(Ok(MigrateOutcome::SkippedSmall))
                } else {
                    self.read_body(0)
                },
                None => self.read_body(0),
            },
            (MigPhase::Body(j), MigEventView::Body(b)) => match b {
                Ok(body) => self.cut(body),
                Err(_) => self.read_body(j + 1),
            },
            (MigPhase::TailPut(r), MigEventView::Put(e)) => match e {
                None => (
                    self.at(MigPhase::TailCheck(r)),
                    MigActionView::AskBody(self.targets[r as int]),
                ),
                Some(x) => (MigView { fault: Some(x), ..self }).rollback(self.legs as int),
            },
            (MigPhase::TailCheck(r), MigEventView::Body(b)) => match b {
                Ok(body) => if body == self.pieces[r as int] {
                    self.tail_put(r + 1)
                } else {
                    (MigView { fault: None, ..self }).rollback(self.legs as int)
                },
                Err(x) => (MigView { fault: Some(x), ..self }).rollback(self.legs as int),
            },
            (MigPhase::Rollback(r), MigEventView::Ack) => self.rollback(r + 1),
            (MigPhase::HeadPut(r), MigEventView::Put(e)) => match e {
                None => (
                    self.at(MigPhase::HeadCheck(r)),
                    MigActionView::AskBody(self.targets[r as int]),
                ),
                Some(_) => (MigView { heals: self.heals + 1, ..self }).head_put(r + 1),
            },
            (MigPhase::HeadCheck(r), MigEventView::Body(b)) => match b {
                Ok(body) => if body == self.pieces[r as int] {
                    self.head_put(r + 1)
                } else {
                    (MigView { heals: self.heals + 1, ..self }).head_put(r + 1)
                },
                Err(_) => self.head_put(r + 1),
            },
            (MigPhase::Stray(i), MigEventView::Ack) => self.stray(i + 1),
            _ => self.finished(Err(domain::ErrorView::Io("migrate: unexpected answer"@))),
        }
    }

    /// The copies are being replaced.
    pub open spec fn committed(self) -> bool {
        self.phase is HeadPut || self.phase is HeadCheck || self.phase is Stray
    }
}

/// The copies are replaced only after the last piece behind them came back bit
/// for bit; where there is no rank behind them, after a copy was read.
pub proof fn copies_replaced_after_canary(v: MigView, ev: MigEventView)
    requires
        !v.committed(),
        v.step(ev).0.committed(),
        v.legs <= v.total() <= usize::MAX,
        v.phase matches MigPhase::TailHas(r) ==> v.legs <= r < v.total(),
        v.phase matches MigPhase::TailCheck(r) ==> v.legs <= r < v.total(),
    ensures
        v.legs < v.total() ==> {
            &&& v.phase == MigPhase::TailCheck((v.total() - 1) as usize)
            &&& ev == MigEventView::Body(Ok(v.pieces[v.total() - 1]))
        },
        v.legs == v.total() ==> v.phase is Body,
{
    match (v.phase, ev) {
        (MigPhase::TailCheck(r), MigEventView::Body(b)) => {
            if r + 1 < v.total() {
                assert(!v.step(ev).0.committed());
            }
        },
        _ => {},
    }
}

/// Until then nothing is written to or removed from a shard that holds a copy:
/// a migration that fails leaves the mirror as it was.
pub proof fn mirror_untouched_before_commit(v: MigView, ev: MigEventView)
    requires
        !v.committed(),
        !v.step(ev).0.committed(),
        v.total() <= usize::MAX,
        v.phase matches MigPhase::TailCheck(r) ==> v.legs <= r,
        v.phase matches MigPhase::Rollback(r) ==> v.legs <= r,
    ensures
        match v.step(ev).1 {
            MigActionView::PutPiece(s, _, _) => exists|r: int|
                v.legs <= r < v.total() && s == #[trigger] v.targets[r],
            MigActionView::Delete(s) => exists|r: int|
                v.legs <= r < v.total() && s == #[trigger] v.targets[r],
            _ => true,
        },
{
    let a = v.step(ev).1;
    match v.step(ev).0.phase {
        MigPhase::TailPut(r) => {
            if a is PutPiece {
                assert(a == MigActionView::PutPiece(
                    v.targets[r as int],
                    a->PutPiece_1,
                    a->PutPiece_2,
                ));
            }
        },
        MigPhase::Rollback(r) => {
            if a is Delete {
                assert(a == MigActionView::Delete(v.targets[r as int]));
            }
        },
        _ => {},
    }
}

/// A rolled-back migration reports a failed comparison, or the error that
/// stopped it.
pub proof fn rollback_reports(v: MigView)
    requires
        v.phase matches MigPhase::Rollback(r) && r + 1 >= v.total(),
    ensures
        v.step(MigEventView::Ack).1 == MigActionView::Finish(
            match v.fault {
                Some(e) => Err(e),
                None => Ok(MigrateOutcome::CanaryFailed),
            },
        ),
{
}

impl Migration {
    pub open spec fn wf(&self) -> bool {
        &&& self.cfg.data > 0
        &&& self.cfg.data + self.cfg.parity <= usize::MAX
        &&& self.targets@.len() >= self.cfg.data + self.cfg.parity
        &&& self.legs <= self.cfg.data + self.cfg.parity
        &&& forall|i: int|
            0 <= i < self.holders@.len() ==> (#[trigger] self.holders@[i]) < self.legs
        &&& match self.phase {
            MigPhase::TailHas(r) | MigPhase::OldStat(r) | MigPhase::OldRead(r) | MigPhase::OldSet(
                r,
            ) => r < self.cfg.data + self.cfg.parity,
            MigPhase::HeadHas(r) => r < self.legs,
            MigPhase::Size => self.holders@.len() > 0,
            MigPhase::Body(j) => j < self.holders.len(),
            MigPhase::TailPut(r) | MigPhase::TailCheck(r) => r < self.cfg.data + self.cfg.parity
                && self.pieces@.len() == self.cfg.data + self.cfg.parity,
            MigPhase::Rollback(r) => r < self.cfg.data + self.cfg.parity,
            MigPhase::HeadPut(r) | MigPhase::HeadCheck(r) => r < self.legs && self.pieces@.len()
                == self.cfg.data + self.cfg.parity,
            MigPhase::Stray(i) => i < self.rest.len(),
            MigPhase::Done => true,
        }
    }

    fn finish(&mut self, r: DomainResult<MigrateOutcome>) -> (a: MigAction)
        requires
            old(self).wf(),
        ensures
            final(self).wf(),
            (final(self)@, a@) == old(self)@.finished(
                match r {
                    Ok(o) => Ok(o),
                    Err(e) => Err(e@),
                },
            ),
    {
        self.phase = MigPhase::Done;
        MigAction::Finish(r)
    }

    fn head_has(&mut self, r: usize) -> (a: MigAction)
        requires
            old(self).wf(),
        ensures
            final(self).wf(),
            (final(self)@, a@) == old(self)@.head_has(r as int),
    {
        if r < self.legs {
            self.phase = MigPhase::HeadHas(r);
            return MigAction::AskHas(self.targets[r]);
        }
        if self.holders.len() == 0 {
            return self.finish(
                Err(DomainError::Io("migrate: no mirror source on top-R".to_owned())),
            );
        }
        self.phase = MigPhase::Size;
        MigAction::AskStat(self.targets[self.holders[0]])
    }

    fn tail_has(&mut self, r: usize) -> (a: MigAction)
        requires
            old(self).wf(),
        ensures
            final(self).wf(),
            (final(self)@, a@) == old(self)@.tail_has(r as int),
    {
        if r < self.cfg.data + self.cfg.parity {
            self.phase = MigPhase::TailHas(r);
            return MigAction::AskHas(self.targets[r]);
        }
        self.head_has(0)
    }

    fn old_stat(&mut self, r: usize) -> (a: MigAction)
        requires
            old(self).wf(),
        ensures
            final(self).wf(),
            (final(self)@, a@) == old(self)@.old_stat(r as int),
    {
        if r < self.cfg.data + self.cfg.parity {
            self.phase = MigPhase::OldStat(r);
            return MigAction::AskStat(self.targets[r]);
        }
        self.finish(Ok(MigrateOutcome::SkippedEc))
    }

    fn read_body(&mut self, j: usize) -> (a: MigAction)
        requires
            old(self).wf(),
        ensures
            final(self).wf(),
            (final(self)@, a@) == old(self)@.read_body(j as int),
    {
        if j < self.holders.len() {
            self.phase = MigPhase::Body(j);
            return MigAction::AskBody(self.targets[self.holders[j]]);
        }
        self.finish(Err(DomainError::Io("migrate: mirror body unreadable".to_owned())))
    }

    fn stray(&mut self, i: usize) -> (a: MigAction)
        requires
            old(self).wf(),
        ensures
            final(self).wf(),
            (final(self)@, a@) == old(self)@.stray(i as int),
    {
        if i < self.rest.len() {
            self.phase = MigPhase::Stray(i);
            return MigAction::Delete(self.rest[i]);
        }
        self.finish(Ok(MigrateOutcome::Migrated))
    }

    fn piece_copy(&self, r: usize) -> (p: Vec<u8>)
        requires
            r < self.pieces@.len(),
        ensures
            p@ == self@.pieces[r as int],
    {
        let p = bytes::copy_range(self.pieces[r].as_slice(), 0, self.pieces[r].len());
        assert(p@ =~= self.pieces@[r as int]@);
        p
    }

    fn head_put(&mut self, r: usize) -> (a: MigAction)
        requires
            old(self).wf(),
            old(self).pieces@.len() == old(self).cfg.data + old(self).cfg.parity,
        ensures
            final(self).wf(),
            (final(self)@, a@) == old(self)@.head_put(r as int),
    {
        if r < self.legs {
            self.phase = MigPhase::HeadPut(r);
            return MigAction::PutPiece(self.targets[r], self.piece_copy(r), self.body_len);
        }
        self.stray(0)
    }

    fn tail_put(&mut self, r: usize) -> (a: MigAction)
        requires
            old(self).wf(),
            old(self).pieces@.len() == old(self).cfg.data + old(self).cfg.parity,
        ensures
            final(self).wf(),
            (final(self)@, a@) == old(self)@.tail_put(r as int),
    {
        if r < self.cfg.data + self.cfg.parity {
            self.phase = MigPhase::TailPut(r);
            return MigAction::PutPiece(self.targets[r], self.piece_copy(r), self.body_len);
        }
        self.head_put(0)
    }

    fn rollback(&mut self, r: usize) -> (a: MigAction)
        requires
            old(self).wf(),
        ensures
            final(self).wf(),
            (final(self)@, a@) == old(self)@.rollback(r as int),
    {
        if r < self.cfg.data + self.cfg.parity {
            self.phase = MigPhase::Rollback(r);
            return MigAction::Delete(self.targets[r]);
        }
        let out: DomainResult<MigrateOutcome> = match &self.fault {
            Some(e) => Err(e.clone()),
            None => Ok(MigrateOutcome::CanaryFailed),
        };
        self.finish(out)
    }

    fn cut(&mut self, body: Vec<u8>) -> (a: MigAction)
        requires
            old(self).wf(),
        ensures
            final(self).wf(),
            (final(self)@, a@) == old(self)@.cut(body@),
    {
        if parse_piece_header(body.as_slice()).is_some() {
            return self.finish(Ok(MigrateOutcome::SkippedEc));
        }
        if body.len() < self.cfg.min_size {
            return self.finish(Ok(MigrateOutcome::SkippedSmall));
        }
        match ec_encode(body.as_slice(), &self.cfg) {
            Ok(pieces) => {
                assert(erasure::views(pieces@).len() == self.cfg.data + self.cfg.parity);
                self.pieces = pieces;
                self.body_len = body.len() as u64;
                self.tail_put(self.legs)
            },
            Err(e) => self.finish(Err(e)),
        }
    }

    /// Starts the migration of a key whose shards by rank are `targets`, on a
    /// pool of `n` shards with `replicas` copies of each object.
    pub fn begin(targets: Vec<ShardId>, n: usize, cfg: &EcConfig, replicas: usize) -> (r: Result<
        (Migration, MigAction),
        DomainError,
    >)
        requires
            n <= 0x1_0000,
            cfg.data > 0,
            cfg.data + cfg.parity <= usize::MAX,
        ensures
            r is Ok <==> targets@.len() >= cfg.data + cfg.parity,
            r matches Err(e) ==> e@ == domain::ErrorView::Io(
                "migrate: alive disks "@ + text::dec_chars(targets@.len()) + " < K+M "@
                    + text::dec_chars((cfg.data + cfg.parity) as nat),
            ),
            r matches Ok(x) ==> {
                let total = (cfg.data + cfg.parity) as nat;
                let legs = if replicas <= total {
                    replicas as nat
                } else {
                    total
                };
                &&& x.0.wf()
                &&& (x.0@, x.1@) == (MigView {
                    targets: targets@,
                    rest: pool::others_of(targets@.take(total as int), n as nat),
                    cfg: *cfg,
                    legs,
                    phase: MigPhase::Done,
                    holders: Seq::empty(),
                    pieces: Seq::empty(),
                    body_len: 0,
                    fault: None,
                    heals: 0,
                    backfilled: 0,
                    old_bytes: 0,
                }).tail_has(legs as int)
            },
    {
        let total: usize = cfg.data + cfg.parity;
        if targets.len() < total {
            let mut t = "migrate: alive disks ".to_owned();
            text::push_dec(&mut t, targets.len() as u64);
            t.append(" < K+M ");
            text::push_dec(&mut t, total as u64);
            return Err(DomainError::Io(t));
        }
        let legs: usize = if replicas <= total {
            replicas
        } else {
            total
        };
        let mut own: Vec<ShardId> = Vec::new();
        let mut i: usize = 0;
        while i < total
            invariant
                i <= total <= targets@.len(),
                own@ =~= targets@.take(i as int),
            decreases total - i,
        {
            own.push(targets[i]);
            i = i + 1;
        }
        let rest = pool::others(&own, n);
        let mut m = Migration {
            targets,
            rest,
            cfg: *cfg,
            legs,
            phase: MigPhase::Done,
            holders: Vec::new(),
            pieces: Vec::new(),
            body_len: 0,
            fault: None,
            heals: 0,
            backfilled: 0,
            old_bytes: 0,
        };
        assert(erasure::views(m.pieces@) =~= Seq::empty());
        let a = m.tail_has(legs);
        Ok((m, a))
    }

    /// The bytes that a migration with an outcome counts for as background work: the old
    /// pieces it read and, once it migrated, a body read, written one and a half times and
    /// read back as often.
    pub fn cost(&self, outcome: &DomainResult<MigrateOutcome>) -> (r: u128)
        ensures
            r == self.old_bytes + (if *outcome matches Ok(MigrateOutcome::Migrated) {
                4 * self.body_len
            } else {
                0
            }),
    {
        let moved: u128 = match outcome {
            Ok(MigrateOutcome::Migrated) => 4 * self.body_len as u128,
            _ => 0,
        };
        self.old_bytes as u128 + moved
    }

    /// Goes on after an answer.
    pub fn advance(&mut self, ev: MigEvent) -> (a: MigAction)
        requires
            old(self).wf(),
            old(self).heals < u64::MAX,
            old(self).backfilled < u64::MAX,
            ev matches MigEvent::Body(Ok(b)) ==> old(self).old_bytes + b@.len() <= u64::MAX,
        ensures
            final(self).wf(),
            (final(self)@, a@) == old(self)@.step(ev@),
    {
        match (self.phase, ev) {
            (MigPhase::TailHas(r), MigEvent::Has(b)) => {
                if b {
                    self.old_stat(0)
                } else {
                    self.tail_has(r + 1)
                }
            },
            (MigPhase::OldStat(r), MigEvent::Stat(s)) => match s {
                Some((_, None)) => {
                    self.phase = MigPhase::OldRead(r);
                    MigAction::AskBody(self.targets[r])
                },
                _ => self.old_stat(r + 1),
            },
            (MigPhase::OldRead(r), MigEvent::Body(b)) => match b {
                Ok(body) => {
                    self.old_bytes = self.old_bytes + body.len() as u64;
                    match parse_piece_header(body.as_slice()) {
                        Some(h) => {
                            self.phase = MigPhase::OldSet(r);
                            MigAction::SetLength(self.targets[r], h.logical_len)
                        },
                        None => self.old_stat(r + 1),
                    }
                },
                Err(_) => self.old_stat(r + 1),
            },
            (MigPhase::OldSet(r), MigEvent::Has(set)) => {
                if set {
                    self.backfilled = self.backfilled + 1;
                }
                self.old_stat(r + 1)
            },
            (MigPhase::HeadHas(r), MigEvent::Has(b)) => {
                if b {
                    self.holders.push(r);
                }
                self.head_has(r + 1)
            },
            (MigPhase::Size, MigEvent::Stat(s)) => match s {
                Some((n, _)) => {
                    if n < self.cfg.min_size as u64 {
                        self.finish(Ok(MigrateOutcome::SkippedSmall))
                    } else {
                        self.read_body(0)
                    }
                },
                None => self.read_body(0),
            },
            (MigPhase::Body(j), MigEvent::Body(b)) => match b {
                Ok(body) => self.cut(body),
                Err(_) => self.read_body(j + 1),
            },
            (MigPhase::TailPut(r), MigEvent::Put(e)) => match e {
                Ok(_) => {
                    self.phase = MigPhase::TailCheck(r);
                    MigAction::AskBody(self.targets[r])
                },
                Err(x) => {
                    self.fault = Some(x);
                    self.rollback(self.legs)
                },
            },
            (MigPhase::TailCheck(r), MigEvent::Body(b)) => match b {
                Ok(body) => {
                    if bytes::same_bytes(body.as_slice(), self.pieces[r].as_slice()) {
                        self.tail_put(r + 1)
                    } else {
                        self.fault = None;
                        self.rollback(self.legs)
                    }
                },
                Err(x) => {
                    self.fault = Some(x);
                    self.rollback(self.legs)
                },
            },
            (MigPhase::Rollback(r), MigEvent::Ack) => self.rollback(r + 1),
            (MigPhase::HeadPut(r), MigEvent::Put(e)) => match e {
                Ok(_) => {
                    self.phase = MigPhase::HeadCheck(r);
                    MigAction::AskBody(self.targets[r])
                },
                Err(_) => {
                    self.heals = self.heals + 1;
                    self.head_put(r + 1)
                },
            },
            (MigPhase::HeadCheck(r), MigEvent::Body(b)) => match b {
                Ok(body) => {
                    if !bytes::same_bytes(body.as_slice(), self.pieces[r].as_slice()) {
                        self.heals = self.heals + 1;
                    }
                    self.head_put(r + 1)
                },
                Err(_) => self.head_put(r + 1),
            },
            (MigPhase::Stray(i), MigEvent::Ack) => self.stray(i + 1),
            _ => self.finish(Err(DomainError::Io("migrate: unexpected answer".to_owned()))),
        }
    }
}

/// Whether two states of the shards agree on one of them.
pub open spec fn same_at(a: Map<ShardId, Seq<u8>>, b: Map<ShardId, Seq<u8>>, s: ShardId) -> bool {
    a.contains_key(s) == b.contains_key(s) && (a.contains_key(s) ==> a[s] == b[s])
}

/// An object on its way from copies to pieces, and the shards that it moves over.
pub ghost struct Moving {
    pub data: Seq<u8>,
    /// shards by rank
    pub targets: Seq<ShardId>,
    /// number of shards of the pool
    pub n: nat,
    pub cfg: EcConfig,
    /// ranks below this hold the copies
    pub legs: nat,
    /// a write leaves what it was given; one that fails leaves that or what was there
    pub faithful: bool,
}

impl Moving {
    pub open spec fn total(self) -> nat {
        (self.cfg.data + self.cfg.parity) as nat
    }

    /// The shards behind the targets.
    pub open spec fn rest(self) -> Seq<ShardId> {
        pool::others_of(self.targets.take(self.total() as int), self.n)
    }

    pub open spec fn pieces(self) -> Seq<Seq<u8>> {
        erasure::ec_pieces(self.data, self.cfg.data as nat, self.cfg.parity as nat)
    }

    pub open spec fn wf(self) -> bool {
        &&& self.legs <= self.total() <= usize::MAX
        &&& self.total() <= self.targets.len()
        &&& pool::distinct(self.targets.take(self.total() as int))
        &&& self.n <= 0x1_0000
    }

    /// The shard of a rank holds the whole object.
    pub open spec fn has_copy(self, held: Map<ShardId, Seq<u8>>, r: int) -> bool {
        held.contains_key(self.targets[r]) && held[self.targets[r]] == self.data
    }

    /// The shard of a rank holds the piece of that rank.
    pub open spec fn has_piece(self, held: Map<ShardId, Seq<u8>>, r: int) -> bool {
        held.contains_key(self.targets[r]) && held[self.targets[r]] == self.pieces()[r]
    }

    /// The copies at the first ranks.
    pub open spec fn copies(self, held: Map<ShardId, Seq<u8>>) -> Seq<Option<Seq<u8>>> {
        Seq::new(
            self.legs,
            |r: int|
                if self.has_copy(held, r) {
                    Some(self.data)
                } else {
                    None
                },
        )
    }

    /// The pieces that lie on the shards of their ranks.
    pub open spec fn in_place(self, held: Map<ShardId, Seq<u8>>) -> Seq<Option<Seq<u8>>> {
        Seq::new(
            self.total(),
            |r: int|
                if self.has_piece(held, r) {
                    Some(self.pieces()[r])
                } else {
                    None
                },
        )
    }

    /// There is a copy, or there are enough pieces.
    pub open spec fn readable(self, held: Map<ShardId, Seq<u8>>) -> bool {
        ||| exists|r: int| 0 <= r < self.legs && #[trigger] self.has_copy(held, r)
        ||| erasure::present(self.in_place(held)) >= self.cfg.data
    }

    /// The first ranks hold copies or nothing, and there is a copy.
    pub open spec fn mirrored(self, held: Map<ShardId, Seq<u8>>) -> bool {
        &&& forall|r: int|
            0 <= r < self.legs && held.contains_key(#[trigger] self.targets[r])
                ==> held[self.targets[r]] == self.data
        &&& exists|r: int| 0 <= r < self.legs && #[trigger] self.has_copy(held, r)
    }

    /// The pieces behind the copies suffice by themselves, or with one for every copy
    /// where writes can be relied on.
    pub open spec fn covered(self, held: Map<ShardId, Seq<u8>>) -> bool {
        ||| self.cfg.parity >= self.legs
        ||| self.faithful && self.cfg.parity + erasure::present(self.copies(held)) >= self.legs
    }

    /// Whether the shards answer an action like this, and what they hold afterwards.
    pub open spec fn answers(
        self,
        held: Map<ShardId, Seq<u8>>,
        a: MigActionView,
        ev: MigEventView,
        after: Map<ShardId, Seq<u8>>,
    ) -> bool {
        match a {
            MigActionView::AskHas(_) => ev is Has && after == held,
            MigActionView::AskStat(_) => ev is Stat && after == held,
            MigActionView::AskBody(s) => {
                &&& ev matches MigEventView::Body(b)
                &&& b matches Ok(body) ==> held.contains_key(s) && held[s] == body
                &&& after == held
            },
            MigActionView::SetLength(_, _) => ev is Has && after == held,
            MigActionView::PutPiece(s, p, _) => {
                &&& ev matches MigEventView::Put(e)
                &&& forall|t: ShardId| t != s ==> #[trigger] same_at(after, held, t)
                &&& self.faithful ==> {
                    ||| after.contains_key(s) && after[s] == p
                    ||| e is Some && same_at(after, held, s)
                }
            },
            MigActionView::Delete(s) => ev is Ack && (after == held || after == held.remove(s)),
            MigActionView::Finish(_) => false,
        }
    }
}

/// A moment of a migration: where it stands, what it wants done, and what the shards hold.
pub ghost struct MigMoment {
    pub state: MigView,
    pub action: MigActionView,
    pub held: Map<ShardId, Seq<u8>>,
}

/// Whether one moment of a migration follows another.
pub open spec fn mig_follows(x: Moving, a: MigMoment, b: MigMoment) -> bool {
    exists|ev: MigEventView| #[trigger]
        x.answers(a.held, a.action, ev, b.held) && (b.state, b.action) == a.state.step(ev)
}

/// The moments of a migration, from its first on.
pub open spec fn is_migration(x: Moving, run: Seq<MigMoment>) -> bool {
    &&& run.len() > 0
    &&& (run[0].state, run[0].action) == (MigView {
        targets: x.targets,
        rest: x.rest(),
        cfg: x.cfg,
        legs: x.legs,
        phase: MigPhase::Done,
        holders: Seq::empty(),
        pieces: Seq::empty(),
        body_len: 0,
        fault: None,
        heals: 0,
        backfilled: 0,
        old_bytes: 0,
    }).tail_has(x.legs as int)
    &&& forall|i: int| 0 < i < run.len() ==> mig_follows(x, run[i - 1], #[trigger] run[i])
}

/// The shards of these ranks hold what they held at first.
spec fn kept(
    x: Moving,
    first: Map<ShardId, Seq<u8>>,
    held: Map<ShardId, Seq<u8>>,
    from: int,
    to: int,
) -> bool {
    forall|r: int| from <= r < to ==> same_at(held, first, #[trigger] x.targets[r])
}

/// The shards of these ranks hold their pieces.
spec fn placed(x: Moving, held: Map<ShardId, Seq<u8>>, from: int, to: int) -> bool {
    forall|r: int| from <= r < to ==> #[trigger] x.has_piece(held, r)
}

/// The shards of the first ranks hold their pieces or what they held at first.
spec fn replaced(
    x: Moving,
    first: Map<ShardId, Seq<u8>>,
    held: Map<ShardId, Seq<u8>>,
    to: int,
) -> bool {
    x.faithful ==> forall|r: int|
        0 <= r < to ==> #[trigger] x.has_piece(held, r) || same_at(held, first, x.targets[r])
}

/// What holds at every moment of a migration.
spec fn mig_safe(x: Moving, first: Map<ShardId, Seq<u8>>, a: MigMoment) -> bool {
    let v = a.state;
    let legs = x.legs as int;
    let total = x.total() as int;
    let intact = kept(x, first, a.held, 0, legs);
    let over = placed(x, a.held, legs, total) && replaced(x, first, a.held, legs);
    &&& v.targets == x.targets && v.rest == x.rest() && v.cfg == x.cfg && v.legs == x.legs
    &&& v.holders.len() <= usize::MAX
    &&& forall|j: int| 0 <= j < v.holders.len() ==> (#[trigger] v.holders[j]) < legs
    &&& match v.phase {
        MigPhase::TailHas(r) => {
            &&& legs <= r < total
            &&& v.holders.len() == 0
            &&& a.action is AskHas
            &&& intact
        },
        MigPhase::OldStat(r) => r < total && a.action is AskStat && intact,
        MigPhase::OldRead(r) => r < total && a.action is AskBody && intact,
        MigPhase::OldSet(r) => r < total && a.action is SetLength && intact,
        MigPhase::HeadHas(r) => r < legs && v.holders.len() <= r && a.action is AskHas && intact,
        MigPhase::Size => a.action is AskStat && intact,
        MigPhase::Body(j) => {
            &&& j < v.holders.len()
            &&& a.action == MigActionView::AskBody(x.targets[v.holders[j as int] as int])
            &&& intact
        },
        MigPhase::TailPut(r) => {
            &&& legs <= r < total
            &&& v.pieces == x.pieces()
            &&& a.action == MigActionView::PutPiece(x.targets[r as int], x.pieces()[r as int], v.body_len)
            &&& intact
            &&& placed(x, a.held, legs, r as int)
        },
        MigPhase::TailCheck(r) => {
            &&& legs <= r < total
            &&& v.pieces == x.pieces()
            &&& a.action == MigActionView::AskBody(x.targets[r as int])
            &&& intact
            &&& placed(x, a.held, legs, r as int)
        },
        MigPhase::Rollback(r) => {
            &&& legs <= r < total
            &&& a.action == MigActionView::Delete(x.targets[r as int])
            &&& intact
        },
        MigPhase::HeadPut(r) => {
            &&& r < legs
            &&& v.pieces == x.pieces()
            &&& a.action == MigActionView::PutPiece(x.targets[r as int], x.pieces()[r as int], v.body_len)
            &&& placed(x, a.held, legs, total)
            &&& replaced(x, first, a.held, r as int)
            &&& kept(x, first, a.held, r as int, legs)
        },
        MigPhase::HeadCheck(r) => {
            &&& r < legs
            &&& v.pieces == x.pieces()
            &&& a.action is AskBody
            &&& placed(x, a.held, legs, total)
            &&& replaced(x, first, a.held, r + 1)
            &&& kept(x, first, a.held, r + 1, legs)
        },
        MigPhase::Stray(i) => {
            &&& i < v.rest.len()
            &&& a.action == MigActionView::Delete(v.rest[i as int])
            &&& over
        },
        MigPhase::Done => if a.action == MigActionView::Finish(Ok(MigrateOutcome::Migrated)) {
            over
        } else {
            a.action is Finish && intact
        },
    }
}

proof fn lemma_others_apart(v: Seq<ShardId>, n: nat)
    ensures
        forall|i: int|
            0 <= i < pool::others_of(v, n).len() ==> !v.contains(#[trigger] pool::others_of(v, n)[i]),
        pool::others_of(v, n).len() <= n,
    decreases n,
{
    if n > 0 {
        lemma_others_apart(v, (n - 1) as nat);
        let p = pool::others_of(v, (n - 1) as nat);
        let w = pool::others_of(v, n);
        assert forall|i: int| 0 <= i < w.len() implies !v.contains(#[trigger] w[i]) by {
            if i < p.len() {
                assert(w[i] == p[i]);
            }
        }
    }
}

/// Going on with the copies.
proof fn lemma_head_on(x: Moving, first: Map<ShardId, Seq<u8>>, v: MigView, r: int, b: MigMoment)
    requires
        x.wf(),
        v.targets == x.targets,
        v.rest == x.rest(),
        v.cfg == x.cfg,
        v.legs == x.legs,
        v.holders.len() <= usize::MAX,
        forall|j: int| 0 <= j < v.holders.len() ==> (#[trigger] v.holders[j]) < x.legs,
        v.pieces == x.pieces(),
        0 <= r <= x.legs,
        placed(x, b.held, x.legs as int, x.total() as int),
        replaced(x, first, b.held, r),
        kept(x, first, b.held, r, x.legs as int),
        (b.state, b.action) == v.head_put(r),
    ensures
        mig_safe(x, first, b),
{
    lemma_others_apart(x.targets.take(x.total() as int), x.n);
}

/// Going on with the pieces behind the copies.
proof fn lemma_tail_on(x: Moving, first: Map<ShardId, Seq<u8>>, v: MigView, r: int, b: MigMoment)
    requires
        x.wf(),
        v.targets == x.targets,
        v.rest == x.rest(),
        v.cfg == x.cfg,
        v.legs == x.legs,
        v.holders.len() <= usize::MAX,
        forall|j: int| 0 <= j < v.holders.len() ==> (#[trigger] v.holders[j]) < x.legs,
        v.pieces == x.pieces(),
        x.legs <= r <= x.total(),
        placed(x, b.held, x.legs as int, r),
        kept(x, first, b.held, 0, x.legs as int),
        (b.state, b.action) == v.tail_put(r),
    ensures
        mig_safe(x, first, b),
{
    if r == x.total() {
        lemma_head_on(x, first, v, 0, b);
    }
}

/// A write to one rank leaves the others.
proof fn lemma_put_at(
    x: Moving,
    a: MigMoment,
    ev: MigEventView,
    after: Map<ShardId, Seq<u8>>,
    r: int,
)
    requires
        x.wf(),
        0 <= r < x.total(),
        a.action is PutPiece,
        a.action->PutPiece_0 == x.targets[r],
        x.answers(a.held, a.action, ev, after),
    ensures
        forall|q: int|
            0 <= q < x.total() && q != r ==> same_at(after, a.held, #[trigger] x.targets[q]),
{
    let own = x.targets.take(x.total() as int);
    assert forall|q: int| 0 <= q < x.total() && q != r implies same_at(
        after,
        a.held,
        #[trigger] x.targets[q],
    ) by {
        assert(own[q] == x.targets[q] && own[r] == x.targets[r]);
        if q < r {
            assert(own[q] != own[r]);
        } else {
            assert(own[r] != own[q]);
        }
    }
}

proof fn lemma_mig_step(x: Moving, first: Map<ShardId, Seq<u8>>, a: MigMoment, b: MigMoment)
    requires
        x.wf(),
        x.mirrored(first),
        mig_safe(x, first, a),
        mig_follows(x, a, b),
    ensures
        mig_safe(x, first, b),
{
    let ev = choose|ev: MigEventView| #[trigger]
        x.answers(a.held, a.action, ev, b.held) && (b.state, b.action) == a.state.step(ev);
    let v = a.state;
    let legs = x.legs as int;
    let total = x.total() as int;
    let own = x.targets.take(total);
    match v.phase {
        MigPhase::Body(j) => {
            let reply = ev->Body_0;
            assert(a.action->AskBody_0 == x.targets[v.holders[j as int] as int]);
            if let Ok(body) = reply {
                assert(v.step(ev) == v.cut(body));
                assert(same_at(a.held, first, x.targets[v.holders[j as int] as int]));
                assert(body == x.data);
                let w = MigView { pieces: x.pieces(), body_len: body.len() as u64, ..v };
                if (b.state, b.action) == w.tail_put(legs) {
                    lemma_tail_on(x, first, w, legs, b);
                }
            }
        },
        MigPhase::TailPut(r) => {
            lemma_put_at(x, a, ev, b.held, r as int);
            assert(placed(x, b.held, legs, r as int)) by {
                assert forall|q: int| legs <= q < r implies #[trigger] x.has_piece(b.held, q) by {
                    assert(x.has_piece(a.held, q));
                    assert(same_at(b.held, a.held, x.targets[q]));
                }
            }
            assert(kept(x, first, b.held, 0, legs)) by {
                assert forall|q: int| 0 <= q < legs implies same_at(
                    b.held,
                    first,
                    #[trigger] x.targets[q],
                ) by {
                    assert(same_at(b.held, a.held, x.targets[q]));
                    assert(same_at(a.held, first, x.targets[q]));
                }
            }
        },
        MigPhase::TailCheck(r) => {
            if let MigEventView::Body(Ok(body)) = ev {
                assert(ev->Body_0 is Ok && ev->Body_0->Ok_0 == body);
                assert(a.action->AskBody_0 == x.targets[r as int]);
                if body == x.pieces()[r as int] {
                    assert(x.has_piece(b.held, r as int));
                    lemma_tail_on(x, first, v, r + 1, b);
                }
            }
        },
        MigPhase::Rollback(r) => {
            assert(kept(x, first, b.held, 0, legs)) by {
                assert forall|q: int| 0 <= q < legs implies same_at(
                    b.held,
                    first,
                    #[trigger] x.targets[q],
                ) by {
                    assert(own[q] == x.targets[q] && own[r as int] == x.targets[r as int]);
                    assert(own[q] != own[r as int]);
                    assert(same_at(a.held, first, x.targets[q]));
                }
            }
        },
        MigPhase::HeadPut(r) => {
            lemma_put_at(x, a, ev, b.held, r as int);
            assert(placed(x, b.held, legs, total)) by {
                assert forall|q: int| legs <= q < total implies #[trigger] x.has_piece(b.held, q) by {
                    assert(x.has_piece(a.held, q));
                    assert(same_at(b.held, a.held, x.targets[q]));
                }
            }
            assert(kept(x, first, b.held, r + 1, legs)) by {
                assert forall|q: int| r + 1 <= q < legs implies same_at(
                    b.held,
                    first,
                    #[trigger] x.targets[q],
                ) by {
                    assert(same_at(b.held, a.held, x.targets[q]));
                    assert(same_at(a.held, first, x.targets[q]));
                }
            }
            assert(replaced(x, first, b.held, r + 1)) by {
                if x.faithful {
                    assert forall|q: int| 0 <= q < r + 1 implies #[trigger] x.has_piece(b.held, q)
                        || same_at(b.held, first, x.targets[q]) by {
                        if q < r {
                            assert(same_at(b.held, a.held, x.targets[q]));
                            assert(x.has_piece(a.held, q) || same_at(a.held, first, x.targets[q]));
                        } else {
                            assert(same_at(a.held, first, x.targets[q]));
                        }
                    }
                }
            }
            if let MigEventView::Put(Some(_)) = ev {
                let w = MigView { heals: v.heals + 1, ..v };
                lemma_head_on(x, first, w, r + 1, b);
            }
        },
        MigPhase::HeadCheck(r) => {
            if let MigEventView::Body(Ok(body)) = ev {
                if body != x.pieces()[r as int] {
                    let w = MigView { heals: v.heals + 1, ..v };
                    lemma_head_on(x, first, w, r + 1, b);
                } else {
                    lemma_head_on(x, first, v, r + 1, b);
                }
            } else {
                lemma_head_on(x, first, v, r + 1, b);
            }
        },
        MigPhase::Stray(i) => {
            lemma_others_apart(own, x.n);
            let s = x.rest()[i as int];
            assert(!own.contains(s));
            assert forall|q: int| 0 <= q < total implies #[trigger] x.targets[q] != s by {
                assert(own[q] == x.targets[q]);
            }
            assert(placed(x, b.held, legs, total)) by {
                assert forall|q: int| legs <= q < total implies #[trigger] x.has_piece(b.held, q) by {
                    assert(x.has_piece(a.held, q));
                }
            }
            assert(replaced(x, first, b.held, legs)) by {
                if x.faithful {
                    assert forall|q: int| 0 <= q < legs implies #[trigger] x.has_piece(b.held, q)
                        || same_at(b.held, first, x.targets[q]) by {
                        assert(x.has_piece(a.held, q) || same_at(a.held, first, x.targets[q]));
                        assert(x.targets[q] != s);
                    }
                }
            }
        },
        _ => {},
    }
}

proof fn lemma_migration(x: Moving, run: Seq<MigMoment>, i: int)
    requires
        x.wf(),
        x.mirrored(run[0].held),
        is_migration(x, run),
        0 <= i < run.len(),
    ensures
        mig_safe(x, run[0].held, run[i]),
    decreases i,
{
    if i > 0 {
        lemma_migration(x, run, i - 1);
        assert(mig_follows(x, run[i - 1], run[i]));
        lemma_mig_step(x, run[0].held, run[i - 1], run[i]);
    }
}

/// Filled slots behind others add to their number.
proof fn lemma_present_behind(a: Seq<Option<Seq<u8>>>, b: Seq<Option<Seq<u8>>>)
    requires
        forall|j: int| 0 <= j < b.len() ==> (#[trigger] b[j]) is Some,
    ensures
        erasure::present(a + b) == erasure::present(a) + b.len(),
    decreases b.len(),
{
    if b.len() == 0 {
        assert(a + b =~= a);
    } else {
        let c = b.drop_last();
        assert((a + b).drop_last() =~= a + c);
        assert((a + b).last() == b[b.len() - 1]);
        assert forall|j: int| 0 <= j < c.len() implies (#[trigger] c[j]) is Some by {
            assert(c[j] == b[j]);
        }
        lemma_present_behind(a, c);
    }
}

/// With the pieces behind the copies in place and the copies replaced as far as that
/// worked, the object is there.
proof fn lemma_over(x: Moving, first: Map<ShardId, Seq<u8>>, held: Map<ShardId, Seq<u8>>, to: int)
    requires
        x.wf(),
        x.mirrored(first),
        x.covered(first),
        0 <= to <= x.legs,
        placed(x, held, x.legs as int, x.total() as int),
        replaced(x, first, held, to),
        kept(x, first, held, to, x.legs as int),
    ensures
        x.readable(held),
{
    let legs = x.legs as int;
    let total = x.total() as int;
    let behind = Seq::new((total - legs) as nat, |j: int| Some(x.pieces()[legs + j]));
    if x.cfg.parity >= x.legs {
        let none = Seq::new(x.legs, |j: int| None::<Seq<u8>>);
        let w = none + behind;
        lemma_present_behind(none, behind);
        assert forall|j: int| 0 <= j < w.len() && (#[trigger] w[j]) is Some implies x.in_place(
            held,
        )[j] is Some by {
            assert(j >= legs);
            assert(x.has_piece(held, j));
        }
        ec_pool::lemma_more_present(w, x.in_place(held));
    } else if !(exists|r: int| 0 <= r < x.legs && #[trigger] x.has_copy(held, r)) {
        let w = x.copies(first) + behind;
        lemma_present_behind(x.copies(first), behind);
        assert forall|j: int| 0 <= j < w.len() && (#[trigger] w[j]) is Some implies x.in_place(
            held,
        )[j] is Some by {
            if j < legs {
                assert(x.copies(first)[j] is Some);
                assert(x.has_copy(first, j));
                assert(!x.has_copy(held, j));
                if j < to {
                    assert(x.has_piece(held, j) || same_at(held, first, x.targets[j]));
                } else {
                    assert(same_at(held, first, x.targets[j]));
                }
                assert(x.has_piece(held, j));
            } else {
                assert(x.has_piece(held, j));
            }
        }
        ec_pool::lemma_more_present(w, x.in_place(held));
    }
}

/// The object stays readable at every moment of its migration: there is a copy, or there
/// are enough pieces.  Writes may fail at any point, and those behind the copies may even
/// leave other bytes than they were given.  A migration that does not report success
/// leaves the copies as they were.
pub proof fn migrated_objects_stay_readable(x: Moving, run: Seq<MigMoment>, i: int)
    requires
        x.wf(),
        x.mirrored(run[0].held),
        x.covered(run[0].held),
        is_migration(x, run),
        0 <= i < run.len(),
    ensures
        x.readable(run[i].held),
        run[i].action is Finish && run[i].action != MigActionView::Finish(
            Ok(MigrateOutcome::Migrated),
        ) ==> forall|r: int|
            0 <= r < x.legs ==> same_at(run[i].held, run[0].held, #[trigger] x.targets[r]),
{
    lemma_migration(x, run, i);
    let first = run[0].held;
    let a = run[i];
    let legs = x.legs as int;
    match a.state.phase {
        MigPhase::HeadPut(r) => lemma_over(x, first, a.held, r as int),
        MigPhase::HeadCheck(r) => lemma_over(x, first, a.held, r + 1),
        MigPhase::Stray(_) => lemma_over(x, first, a.held, legs),
        _ => {
            if a.action == MigActionView::Finish(Ok(MigrateOutcome::Migrated)) {
                lemma_over(x, first, a.held, legs);
            } else {
                let r = choose|r: int| 0 <= r < x.legs && #[trigger] x.has_copy(first, r);
                assert(same_at(a.held, first, x.targets[r]));
                assert(x.has_copy(a.held, r));
            }
        },
    }
}

/// A body that is cut: whole, not in pieces, and no smaller than the limit, at any length above
/// it. Its pieces are those of cutting it, and the first that is written lies behind the
/// copies. A smaller body stays mirrored, and pieces stay pieces.
pub proof fn large_bodies_are_migrated(v: MigView, j: usize, body: Seq<u8>)
    requires
        v.phase == MigPhase::Body(j),
        0 < v.cfg.data,
        0 < v.cfg.parity,
        v.cfg.data + v.cfg.parity <= 256,
        v.legs < v.cfg.data + v.cfg.parity,
        body.len() <= u64::MAX,
    ensures
        body.len() < 16 || body.take(4) != seq![0x4fu8, 0x5a, 0x45, 0x43] ==> {
            let (w, a) = v.step(MigEventView::Body(Ok(body)));
            &&& body.len() < v.cfg.min_size ==> a == MigActionView::Finish(
                Ok(MigrateOutcome::SkippedSmall),
            )
            &&& body.len() >= v.cfg.min_size ==> {
                &&& w.pieces == erasure::ec_pieces(
                    body,
                    v.cfg.data as nat,
                    v.cfg.parity as nat,
                )
                &&& w.body_len == body.len()
                &&& a == MigActionView::PutPiece(
                    v.targets[v.legs as int],
                    w.pieces[v.legs as int],
                    body.len() as u64,
                )
            }
        },
        piece::parsed_piece(body) is Some ==> v.step(MigEventView::Body(Ok(body))).1
            == MigActionView::Finish(Ok(MigrateOutcome::SkippedEc)),
{
    assert(body.len() >= 4 ==> body.take(4) =~= body.subrange(0, 4));
}

/// The size alone keeps a small body mirrored; any other is read, from the next holder where
/// one cannot give it.
pub proof fn sizes_decide_first(v: MigView, n: u64, j: usize, e: domain::ErrorView)
    requires
        v.holders.len() > 0,
    ensures
        v.phase is Size && n < v.cfg.min_size ==> v.step(MigEventView::Stat(Some((n, None)))).1
            == MigActionView::Finish(Ok(MigrateOutcome::SkippedSmall)),
        v.phase is Size && n >= v.cfg.min_size ==> v.step(MigEventView::Stat(Some((n, None)))).1
            == MigActionView::AskBody(v.targets[v.holders[0] as int]),
        v.phase is Size ==> v.step(MigEventView::Stat(None)).1 == MigActionView::AskBody(
            v.targets[v.holders[0] as int],
        ),
        v.phase == MigPhase::Body(j) && j + 1 < v.holders.len() ==> v.step(
            MigEventView::Body(Err(e)),
        ).1 == MigActionView::AskBody(v.targets[v.holders[j + 1] as int]),
        v.phase == MigPhase::Body(j) && j + 1 >= v.holders.len() ==> (v.step(
            MigEventView::Body(Err(e)),
        ).1 matches MigActionView::Finish(Err(_))),
{
}

/// Pieces behind the copies mean that the key was migrated before: its rows are looked
/// through. Without any, every rank of the copies is asked for one.
pub proof fn migrated_keys_are_noticed(v: MigView, r: usize, b: bool)
    requires
        v.cfg.data > 0,
        v.cfg.data + v.cfg.parity <= usize::MAX,
        v.legs <= v.cfg.data + v.cfg.parity,
    ensures
        v.phase == MigPhase::TailHas(r) && b ==> v.step(MigEventView::Has(b)).1
            == MigActionView::AskStat(v.targets[0]),
        v.phase == MigPhase::TailHas(r) && !b && r + 1 < v.cfg.data + v.cfg.parity ==> v.step(
            MigEventView::Has(b),
        ).1 == MigActionView::AskHas(v.targets[r + 1]),
        v.phase == MigPhase::TailHas(r) && !b && r + 1 >= v.cfg.data + v.cfg.parity && v.legs > 0
            ==> v.step(MigEventView::Has(b)).1 == MigActionView::AskHas(v.targets[0]),
        v.phase == MigPhase::HeadHas(r) ==> v.step(MigEventView::Has(b)).0.holders == if b {
            v.holders.push(r)
        } else {
            v.holders
        },
        v.phase == MigPhase::HeadHas(r) && r + 1 < v.legs ==> v.step(MigEventView::Has(b)).1
            == MigActionView::AskHas(v.targets[r + 1]),
        v.phase == MigPhase::HeadHas(r) && r + 1 >= v.legs && v.holders.len() > 0 ==> v.step(
            MigEventView::Has(b),
        ).1 == MigActionView::AskStat(v.targets[v.holders[0] as int]),
        v.phase == MigPhase::HeadHas(r) && r + 1 >= v.legs && v.holders.len() == 0 && !b ==> (
        v.step(MigEventView::Has(b)).1 matches MigActionView::Finish(Err(_))),
{
    assert(v.holders.len() > 0 ==> v.holders.push(r)[0] == v.holders[0]);
}

/// Old pieces are told their object's length: each row without one is read and given the one
/// that its envelope names, and every rank is looked at.
pub proof fn old_pieces_learn_their_length(
    v: MigView,
    r: usize,
    n: u64,
    h: piece::PieceHeader,
    stripe: Seq<u8>,
    set: bool,
)
    requires
        h.k > 0,
        h.m > 0,
        h.piece_idx < h.k + h.m,
        stripe.len() == piece::ceil_div(h.logical_len as nat, h.k as nat),
        r < v.cfg.data + v.cfg.parity <= usize::MAX,
    ensures
        v.phase == MigPhase::OldStat(r) ==> v.step(MigEventView::Stat(Some((n, None)))).1
            == MigActionView::AskBody(v.targets[r as int]),
        v.phase == MigPhase::OldStat(r) && r + 1 < v.cfg.data + v.cfg.parity ==> v.step(
            MigEventView::Stat(Some((n, Some(n)))),
        ).1 == MigActionView::AskStat(v.targets[r + 1]) && v.step(MigEventView::Stat(None)).1
            == MigActionView::AskStat(v.targets[r + 1]),
        v.phase == MigPhase::OldStat(r) && r + 1 >= v.cfg.data + v.cfg.parity ==> v.step(
            MigEventView::Stat(None),
        ).1 == MigActionView::Finish(Ok(MigrateOutcome::SkippedEc)),
        v.phase == MigPhase::OldRead(r) ==> ({
            let (w, a) = v.step(MigEventView::Body(Ok(h.encoded() + stripe)));
            &&& a == MigActionView::SetLength(v.targets[r as int], h.logical_len)
            &&& w.old_bytes == v.old_bytes + 16 + stripe.len()
        }),
        v.phase == MigPhase::OldSet(r) ==> v.step(MigEventView::Has(set)).0.backfilled
            == v.backfilled + if set {
            1nat
        } else {
            0
        },
{
    piece::piece_header_round_trip(h, stripe);
    crate::bytes::lemma_le_bytes_len(h.logical_len as nat, 8);
}

/// Every piece behind the copies is written and read back; one that comes back otherwise, or
/// not at all, has all of them removed again.
pub proof fn canaries_guard_the_copies(
    v: MigView,
    r: usize,
    body: Seq<u8>,
    e: domain::ErrorView,
)
    requires
        v.legs <= r < v.cfg.data + v.cfg.parity <= usize::MAX,
        v.legs > 0,
    ensures
        v.phase == MigPhase::TailPut(r) ==> v.step(MigEventView::Put(None)).1
            == MigActionView::AskBody(v.targets[r as int]),
        v.phase == MigPhase::TailPut(r) ==> ({
            let (w, a) = v.step(MigEventView::Put(Some(e)));
            a == MigActionView::Delete(v.targets[v.legs as int]) && w.fault == Some(e)
        }),
        v.phase == MigPhase::TailCheck(r) && body == v.pieces[r as int] && r + 1 < v.cfg.data
            + v.cfg.parity ==> v.step(MigEventView::Body(Ok(body))).1 == MigActionView::PutPiece(
            v.targets[r + 1],
            v.pieces[r + 1],
            v.body_len,
        ),
        v.phase == MigPhase::TailCheck(r) && body == v.pieces[r as int] && r + 1 >= v.cfg.data
            + v.cfg.parity ==> v.step(MigEventView::Body(Ok(body))).1 == MigActionView::PutPiece(
            v.targets[0],
            v.pieces[0],
            v.body_len,
        ),
        v.phase == MigPhase::TailCheck(r) && body != v.pieces[r as int] ==> ({
            let (w, a) = v.step(MigEventView::Body(Ok(body)));
            a == MigActionView::Delete(v.targets[v.legs as int]) && w.fault is None
        }),
        v.phase == MigPhase::TailCheck(r) ==> ({
            let (w, a) = v.step(MigEventView::Body(Err(e)));
            a == MigActionView::Delete(v.targets[v.legs as int]) && w.fault == Some(e)
        }),
        v.phase == MigPhase::Rollback(r) && r + 1 < v.cfg.data + v.cfg.parity ==> v.step(
            MigEventView::Ack,
        ).1 == MigActionView::Delete(v.targets[r + 1]),
{
}

/// Every copy is replaced by the piece of its rank; one that fails is left to a repair, which
/// is counted. Then every other shard is cleared and the key is migrated.
pub proof fn copies_give_way_to_pieces(
    v: MigView,
    r: usize,
    body: Seq<u8>,
    e: domain::ErrorView,
)
    requires
        r < v.legs <= usize::MAX,
        v.rest.len() <= usize::MAX,
    ensures
        v.phase == MigPhase::HeadPut(r) ==> v.step(MigEventView::Put(None)).1
            == MigActionView::AskBody(v.targets[r as int]),
        v.phase == MigPhase::HeadPut(r) ==> v.step(MigEventView::Put(Some(e))).0.heals == v.heals
            + 1,
        v.phase == MigPhase::HeadCheck(r) ==> v.step(MigEventView::Body(Ok(body))).0.heals
            == v.heals + if body == v.pieces[r as int] {
            0nat
        } else {
            1
        },
        v.phase == MigPhase::HeadCheck(r) && r + 1 < v.legs ==> v.step(
            MigEventView::Body(Ok(body)),
        ).1 == MigActionView::PutPiece(v.targets[r + 1], v.pieces[r + 1], v.body_len),
        v.phase == MigPhase::HeadPut(r) && r + 1 < v.legs ==> v.step(
            MigEventView::Put(Some(e)),
        ).1 == MigActionView::PutPiece(v.targets[r + 1], v.pieces[r + 1], v.body_len),
        v.phase == MigPhase::HeadCheck(r) && r + 1 >= v.legs && v.rest.len() > 0 ==> v.step(
            MigEventView::Body(Ok(body)),
        ).1 == MigActionView::Delete(v.rest[0]),
        v.phase == MigPhase::HeadCheck(r) && r + 1 >= v.legs && v.rest.len() == 0 ==> v.step(
            MigEventView::Body(Ok(body)),
        ).1 == MigActionView::Finish(Ok(MigrateOutcome::Migrated)),
        v.phase == MigPhase::Stray(r) && r + 1 < v.rest.len() ==> v.step(MigEventView::Ack).1
            == MigActionView::Delete(v.rest[r + 1]),
        v.phase == MigPhase::Stray(r) && r + 1 >= v.rest.len() ==> v.step(MigEventView::Ack).1
            == MigActionView::Finish(Ok(MigrateOutcome::Migrated)),
{
}

/// A migration costs the old pieces it read, and four times the body once that was migrated.
pub proof fn migrations_have_their_cost(
    m: &Migration,
    outcome: &DomainResult<MigrateOutcome>,
    r: u128,
)
    requires
        call_ensures(Migration::cost, (m, outcome), r),
    ensures
        *outcome == Ok::<MigrateOutcome, DomainError>(MigrateOutcome::Migrated) ==> r
            == m.old_bytes + 4 * m.body_len,
        outcome is Err || outcome->Ok_0 != MigrateOutcome::Migrated ==> r == m.old_bytes,
{
}

/// A migration begins exactly where there is a shard for every piece, and asks the first rank
/// behind the copies.
pub proof fn migrations_need_a_shard_for_each_piece(
    targets: Vec<ShardId>,
    n: usize,
    cfg: &EcConfig,
    replicas: usize,
    r: Result<(Migration, MigAction), DomainError>,
)
    requires
        n <= 0x1_0000,
        cfg.data > 0,
        cfg.data + cfg.parity <= usize::MAX,
        call_ensures(Migration::begin, (targets, n, cfg, replicas), r),
    ensures
        r is Ok <==> targets@.len() >= cfg.data + cfg.parity,
        r is Ok && replicas < cfg.data + cfg.parity ==> (r->Ok_0).1@ == MigActionView::AskHas(
            targets@[replicas as int],
        ) && (r->Ok_0).0@.legs == replicas,
        r is Ok && 0 < cfg.data + cfg.parity <= replicas ==> (r->Ok_0).0@.legs == cfg.data
            + cfg.parity,
        r is Ok ==> (r->Ok_0).0@.targets == targets@ && (r->Ok_0).0@.cfg == *cfg,
{
}

} // verus!
