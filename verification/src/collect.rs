//! Collections and evictions: how a shard gives up a segment.
//!
//! A collection copies the live records of one segment to the end of the log, lets their
//! rows follow, makes the copies durable and only then removes the file. An eviction
//! removes the rows instead of copying the records. Both are machines: they say what to
//! do next, and are told what came of it.
use vstd::prelude::*;
use vstd::string::*;
use crate::bytes;
use crate::domain::{DomainError, DomainResult, GcReport};
use crate::domain;
use crate::engine::is_listed;
use crate::engine;
use crate::index::{is_live, Lookup};
use crate::index;
use crate::segment::{scan_segment, RecordAddr, RecoveredRecord};
use crate::segment;
use crate::store;

verus! {

/// What a collection is waiting for.
#[derive(Clone, Copy, Debug, PartialEq, Eq, Structural)]
pub enum GcPhase {
    /// the bytes of the victim
    Load,
    /// what the index knows of the key of this record
    Look(usize),
    /// the copy of this record
    Copy(usize),
    /// the row of this record
    Move(usize),
    /// the counters of copies that became garbage
    Account,
    /// the copies to be durable
    Flush,
    /// the victim's file to go
    Unlink,
    /// the victim's counter to go
    Forget,
    /// the segments and the references to them
    Survey,
    /// this unreferenced segment to go
    Orphan(usize),
    /// the counters of those segments to go
    Clear,
    Done,
}

/// A collection in progress.
#[derive(Debug)]
pub struct GcPass {
    pub sweep: bool,
    /// segment and file size
    pub victim: Option<(u32, u64)>,
    pub phase: GcPhase,
    /// the records of the victim
    pub records: Vec<RecoveredRecord>,
    /// where the last record was copied to, and the copy's checksum
    pub copy: Option<(RecordAddr, u32)>,
    pub moved: usize,
    /// copies that are garbage: segment and bytes
    pub stray: Vec<(u32, u64)>,
    /// segments that nothing refers to, with their sizes
    pub orphans: Vec<(u32, u64)>,
    /// those of them that are gone
    pub removed: Vec<u32>,
    pub report: GcReport,
}

/// [`GcPass`] by value.
pub ghost struct GcView {
    pub sweep: bool,
    pub victim: Option<(u32, u64)>,
    pub phase: GcPhase,
    pub records: Seq<segment::RecordView>,
    pub copy: Option<(RecordAddr, u32)>,
    pub moved: int,
    pub stray: Seq<(u32, u64)>,
    pub orphans: Seq<(u32, u64)>,
    pub removed: Seq<u32>,
    pub report: GcReport,
}

impl View for GcPass {
    type V = GcView;

    open spec fn view(&self) -> GcView {
        GcView {
            sweep: self.sweep,
            victim: self.victim,
            phase: self.phase,
            records: segment::record_views(self.records@),
            copy: self.copy,
            moved: self.moved as int,
            stray: self.stray@,
            orphans: self.orphans@,
            removed: self.removed@,
            report: self.report,
        }
    }
}

/// What came of the last action.
#[derive(Debug)]
pub enum GcEvent {
    File(Vec<u8>),
    Looked(DomainResult<Lookup>),
    /// where a record was copied to, and the copy's checksum
    Copied(RecordAddr, u32),
    /// whether the row followed
    Moved(bool),
    /// the segments that rows refer to and the sealed segments
    Segments(Vec<(u32, u64)>, Vec<(u32, u64)>),
    Did,
    Failed(DomainError),
}

/// [`GcEvent`] by value.
pub ghost enum GcEventView {
    File(Seq<u8>),
    Looked(Result<index::LookupView, domain::ErrorView>),
    Copied(RecordAddr, u32),
    Moved(bool),
    Segments(Seq<(u32, u64)>, Seq<(u32, u64)>),
    Did,
    Failed(domain::ErrorView),
}

/// A lookup by value.
pub open spec fn looked_view(l: DomainResult<Lookup>) -> Result<
    index::LookupView,
    domain::ErrorView,
> {
    match l {
        Ok(x) => Ok(x@),
        Err(e) => Err(e@),
    }
}

impl View for GcEvent {
    type V = GcEventView;

    open spec fn view(&self) -> GcEventView {
        match *self {
            GcEvent::File(b) => GcEventView::File(b@),
            GcEvent::Looked(l) => GcEventView::Looked(looked_view(l)),
            GcEvent::Copied(a, c) => GcEventView::Copied(a, c),
            GcEvent::Moved(f) => GcEventView::Moved(f),
            GcEvent::Segments(r, s) => GcEventView::Segments(r@, s@),
            GcEvent::Did => GcEventView::Did,
            GcEvent::Failed(e) => GcEventView::Failed(e@),
        }
    }
}

/// What a collection wants done.
#[derive(Debug)]
pub enum GcAction {
    /// read a segment
    Load(u32),
    /// look a key up
    Look(Vec<u8>),
    /// append a record to the log
    Copy { key: Vec<u8>, stored: Vec<u8>, logical_len: u32, flags: u16 },
    /// let the row of a key follow its record
    Move {
        key: Vec<u8>,
        from: RecordAddr,
        to: RecordAddr,
        crc: u32,
        logical_len: u32,
        flags: u16,
    },
    /// count bytes of segments as garbage
    Account(Vec<(u32, u64)>),
    Flush,
    /// remove a segment's file
    Unlink(u32),
    /// remove the garbage counters of segments
    Forget(Vec<u32>),
    /// list the segments, and count the rows that refer to each
    Survey,
    Finish(DomainResult<GcReport>),
}

/// [`GcAction`] by value.
pub ghost enum GcActionView {
    Load(u32),
    Look(Seq<u8>),
    Copy { key: Seq<u8>, stored: Seq<u8>, logical_len: u32, flags: u16 },
    Move {
        key: Seq<u8>,
        from: RecordAddr,
        to: RecordAddr,
        crc: u32,
        logical_len: u32,
        flags: u16,
    },
    Account(Seq<(u32, u64)>),
    Flush,
    Unlink(u32),
    Forget(Seq<u32>),
    Survey,
    Finish(Result<GcReport, domain::ErrorView>),
}

/// A report by value.
pub open spec fn report_view(r: DomainResult<GcReport>) -> Result<GcReport, domain::ErrorView> {
    match r {
        Ok(x) => Ok(x),
        Err(e) => Err(e@),
    }
}

impl View for GcAction {
    type V = GcActionView;

    open spec fn view(&self) -> GcActionView {
        match *self {
            GcAction::Load(s) => GcActionView::Load(s),
            GcAction::Look(k) => GcActionView::Look(k@),
            GcAction::Copy { key, stored, logical_len, flags } => GcActionView::Copy {
                key: key@,
                stored: stored@,
                logical_len,
                flags,
            },
            GcAction::Move { key, from, to, crc, logical_len, flags } => GcActionView::Move {
                key: key@,
                from,
                to,
                crc,
                logical_len,
                flags,
            },
            GcAction::Account(v) => GcActionView::Account(v@),
            GcAction::Flush => GcActionView::Flush,
            GcAction::Unlink(s) => GcActionView::Unlink(s),
            GcAction::Forget(v) => GcActionView::Forget(v@),
            GcAction::Survey => GcActionView::Survey,
            GcAction::Finish(r) => GcActionView::Finish(report_view(r)),
        }
    }
}

/// The sealed segments that nothing refers to, in their order.
pub open spec fn orphans_of(refs: Seq<(u32, u64)>, sealed: Seq<(u32, u64)>) -> Seq<(u32, u64)>
    decreases sealed.len(),
{
    if sealed.len() == 0 {
        Seq::empty()
    } else {
        let rest = orphans_of(refs, sealed.drop_last());
        if engine::listed(refs, sealed.last().0) {
            rest
        } else {
            rest.push(sealed.last())
        }
    }
}

/// Whether a lookup found the record at an address.
pub open spec fn found_live(l: index::LookupView, addr: RecordAddr) -> bool {
    l matches index::LookupView::Addr(e) && index::points_at(e, addr)
}

impl GcView {
    pub open spec fn at(self, phase: GcPhase) -> GcView {
        GcView { phase, ..self }
    }

    /// Stop here.
    pub open spec fn finished(self, r: Result<GcReport, domain::ErrorView>) -> (
        GcView,
        GcActionView,
    ) {
        (self.at(GcPhase::Done), GcActionView::Finish(r))
    }

    /// Go through the records from number `i` on, then make the copies durable.
    pub open spec fn look_from(self, i: int) -> (GcView, GcActionView) {
        if i < self.records.len() {
            (self.at(GcPhase::Look(i as usize)), GcActionView::Look(self.records[i].key))
        } else if self.stray.len() > 0 {
            (self.at(GcPhase::Account), GcActionView::Account(self.stray))
        } else {
            (self.at(GcPhase::Flush), GcActionView::Flush)
        }
    }

    /// After the victim: the sweep, when it is due.
    pub open spec fn wrap_up(self) -> (GcView, GcActionView) {
        if self.sweep {
            (self.at(GcPhase::Survey), GcActionView::Survey)
        } else {
            self.finished(Ok(self.report))
        }
    }

    /// Remove the unreferenced segments from number `j` on, then their counters.
    pub open spec fn sweep_from(self, j: int) -> (GcView, GcActionView) {
        if j < self.orphans.len() {
            (self.at(GcPhase::Orphan(j as usize)), GcActionView::Unlink(self.orphans[j].0))
        } else if self.removed.len() > 0 {
            (self.at(GcPhase::Clear), GcActionView::Forget(self.removed))
        } else {
            self.finished(Ok(self.report))
        }
    }

    /// A record found live is copied as it is stored; of one that could not be looked up
    /// nobody knows, so the segment stays.
    pub open spec fn looked(self, i: int, l: Result<index::LookupView, domain::ErrorView>) -> (
        GcView,
        GcActionView,
    ) {
        let r = self.records[i];
        match l {
            Ok(x) => if found_live(x, r.addr) {
                (
                    self.at(GcPhase::Copy(i as usize)),
                    GcActionView::Copy {
                        key: r.key,
                        stored: r.stored,
                        logical_len: r.logical_len,
                        flags: r.flags,
                    },
                )
            } else {
                self.look_from(i + 1)
            },
            Err(e) => self.finished(Err(e)),
        }
    }

    /// The row follows a copy.
    pub open spec fn copied(self, i: int, to: RecordAddr, crc: u32) -> (GcView, GcActionView) {
        let r = self.records[i];
        (
            GcView { copy: Some((to, crc)), ..self }.at(GcPhase::Move(i as usize)),
            GcActionView::Move {
                key: r.key,
                from: r.addr,
                to,
                crc,
                logical_len: r.logical_len,
                flags: r.flags,
            },
        )
    }

    /// A copy whose row did not follow is garbage.
    pub open spec fn moved(self, i: int, followed: bool) -> (GcView, GcActionView) {
        let v = if followed {
            GcView { moved: self.moved + 1, ..self }
        } else {
            GcView {
                stray: self.stray.push(
                    ((self.copy->0).0.seg_id, (self.copy->0).0.stored_len as u64),
                ),
                ..self
            }
        };
        v.look_from(i + 1)
    }

    /// Once the victim is gone the report counts what was moved and freed.
    pub open spec fn forgot(self) -> (GcView, GcActionView) {
        GcView {
            report: GcReport {
                live_moved: self.moved as usize,
                reclaimed_bytes: (self.victim->0).1,
                ..self.report
            },
            ..self
        }.wrap_up()
    }

    /// An unreferenced segment is gone.
    pub open spec fn orphan_gone(self, j: int) -> (GcView, GcActionView) {
        GcView {
            report: GcReport {
                orphans_removed: (self.report.orphans_removed + 1) as u32,
                orphan_bytes: (self.report.orphan_bytes + self.orphans[j].1) as u64,
                ..self.report
            },
            removed: self.removed.push(self.orphans[j].0),
            ..self
        }.sweep_from(j + 1)
    }

    /// What happens next.  A failure ends the collection, except that a segment that
    /// cannot be removed is left to the next sweep.
    pub open spec fn step(self, ev: GcEventView) -> (GcView, GcActionView) {
        match (self.phase, ev) {
            (GcPhase::Orphan(j), GcEventView::Failed(_)) => self.sweep_from(j + 1),
            (_, GcEventView::Failed(e)) => self.finished(Err(e)),
            (GcPhase::Load, GcEventView::File(b)) => GcView {
                records: segment::scanned(b, (self.victim->0).0, 0),
                ..self
            }.look_from(0),
            (GcPhase::Look(i), GcEventView::Looked(l)) => self.looked(i as int, l),
            (GcPhase::Copy(i), GcEventView::Copied(to, crc)) => self.copied(i as int, to, crc),
            (GcPhase::Move(i), GcEventView::Moved(f)) => self.moved(i as int, f),
            (GcPhase::Account, GcEventView::Did) => (
                self.at(GcPhase::Flush),
                GcActionView::Flush,
            ),
            (GcPhase::Flush, GcEventView::Did) => (
                self.at(GcPhase::Unlink),
                GcActionView::Unlink((self.victim->0).0),
            ),
            (GcPhase::Unlink, GcEventView::Did) => (
                self.at(GcPhase::Forget),
                GcActionView::Forget(seq![(self.victim->0).0]),
            ),
            (GcPhase::Forget, GcEventView::Did) => self.forgot(),
            (GcPhase::Survey, GcEventView::Segments(refs, sealed)) => GcView {
                orphans: orphans_of(refs, sealed),
                ..self
            }.sweep_from(0),
            (GcPhase::Orphan(j), GcEventView::Did) => self.orphan_gone(j as int),
            (GcPhase::Clear, GcEventView::Did) => self.finished(Ok(self.report)),
            _ => self.finished(Err(domain::ErrorView::Io("gc: unexpected answer"@))),
        }
    }

    /// The state before the first answer: a victim to be read, a sweep, or nothing.
    pub open spec fn begun(pass: u32, victim: Option<(u32, u64)>) -> (GcView, GcActionView) {
        let v = GcView {
            sweep: pass % 5 == 0,
            victim,
            phase: GcPhase::Load,
            records: Seq::empty(),
            copy: None,
            moved: 0,
            stray: Seq::empty(),
            orphans: Seq::empty(),
            removed: Seq::empty(),
            report: GcReport {
                victim_seg: match victim {
                    Some(x) => Some(x.0),
                    None => None,
                },
                live_moved: 0,
                reclaimed_bytes: 0,
                orphans_removed: 0,
                orphan_bytes: 0,
            },
        };
        match victim {
            Some(x) => (v, GcActionView::Load(x.0)),
            None => v.wrap_up(),
        }
    }
}

/// The victim of a collection: the picked segment, unless it holds too little garbage
/// for its size.  An empty file is always worth it.
pub open spec fn victim_of(
    sealed: Seq<(u32, u64)>,
    pick: Option<usize>,
    below_ratio: bool,
) -> Option<(u32, u64)> {
    match pick {
        Some(i) => if sealed[i as int].1 > 0 && below_ratio {
            None
        } else {
            Some(sealed[i as int])
        },
        None => None,
    }
}

proof fn lemma_orphans_bounds(refs: Seq<(u32, u64)>, sealed: Seq<(u32, u64)>)
    ensures
        orphans_of(refs, sealed).len() <= sealed.len(),
        engine::size_sum(orphans_of(refs, sealed)) <= engine::size_sum(sealed),
    decreases sealed.len(),
{
    if sealed.len() > 0 {
        lemma_orphans_bounds(refs, sealed.drop_last());
        let rest = orphans_of(refs, sealed.drop_last());
        assert(rest.push(sealed.last()).drop_last() =~= rest);
    }
}

/// Lists the sealed segments that nothing refers to.
fn find_orphans(refs: &Vec<(u32, u64)>, sealed: &Vec<(u32, u64)>) -> (r: Vec<(u32, u64)>)
    ensures
        r@ == orphans_of(refs@, sealed@),
{
    let mut out: Vec<(u32, u64)> = Vec::new();
    let mut i: usize = 0;
    assert(sealed@.take(0) =~= Seq::empty());
    while i < sealed.len()
        invariant
            i <= sealed@.len(),
            out@ == orphans_of(refs@, sealed@.take(i as int)),
        decreases sealed@.len() - i,
    {
        assert(sealed@.take(i + 1).drop_last() =~= sealed@.take(i as int));
        if !is_listed(refs, sealed[i].0) {
            out.push(sealed[i]);
        }
        i = i + 1;
    }
    assert(sealed@.take(sealed@.len() as int) =~= sealed@);
    out
}

fn copy_bytes(b: &Vec<u8>) -> (r: Vec<u8>)
    ensures
        r@ == b@,
{
    let r = bytes::copy_range(b.as_slice(), 0, b.len());
    assert(r@ =~= b@);
    r
}

impl GcPass {
    /// The records lie where the phase says, and the counters cannot overflow.
    pub open spec fn wf(self) -> bool {
        &&& match self.phase {
            GcPhase::Load => self.victim is Some && self.moved == 0,
            GcPhase::Look(i) => self.victim is Some && i < self.records.len() && self.moved <= i,
            GcPhase::Copy(i) => self.victim is Some && i < self.records.len() && self.moved <= i,
            GcPhase::Move(i) => self.victim is Some && i < self.records.len() && self.moved <= i
                && self.copy is Some,
            GcPhase::Account => self.victim is Some,
            GcPhase::Flush => self.victim is Some,
            GcPhase::Unlink => self.victim is Some,
            GcPhase::Forget => self.victim is Some,
            GcPhase::Orphan(j) => {
                &&& j < self.orphans.len()
                &&& self.orphans.len() <= u32::MAX
                &&& engine::size_sum(self.orphans@) <= u64::MAX
                &&& self.report.orphans_removed <= j
                &&& self.report.orphan_bytes <= engine::size_sum(self.orphans@.take(j as int))
            },
            _ => true,
        }
        &&& !(self.phase is Orphan || self.phase is Clear || self.phase is Done) ==> {
            &&& self.report.orphans_removed == 0
            &&& self.report.orphan_bytes == 0
        }
    }

    fn finished(&mut self, r: DomainResult<GcReport>) -> (a: GcAction)
        ensures
            final(self).wf(),
            (final(self)@, a@) == old(self)@.finished(report_view(r)),
    {
        self.phase = GcPhase::Done;
        GcAction::Finish(r)
    }

    fn look_from(&mut self, i: usize) -> (a: GcAction)
        requires
            old(self).victim is Some,
            old(self).moved <= i,
            old(self).report.orphans_removed == 0,
            old(self).report.orphan_bytes == 0,
        ensures
            final(self).wf(),
            (final(self)@, a@) == old(self)@.look_from(i as int),
    {
        if i < self.records.len() {
            self.phase = GcPhase::Look(i);
            return GcAction::Look(copy_bytes(&self.records[i].key));
        }
        if self.stray.len() > 0 {
            self.phase = GcPhase::Account;
            return GcAction::Account(self.stray_copy());
        }
        self.phase = GcPhase::Flush;
        GcAction::Flush
    }

    fn stray_copy(&self) -> (r: Vec<(u32, u64)>)
        ensures
            r@ == self.stray@,
    {
        let mut out: Vec<(u32, u64)> = Vec::new();
        let mut i: usize = 0;
        while i < self.stray.len()
            invariant
                i <= self.stray@.len(),
                out@ == self.stray@.take(i as int),
            decreases self.stray@.len() - i,
        {
            out.push(self.stray[i]);
            assert(out@ =~= self.stray@.take(i + 1));
            i = i + 1;
        }
        assert(out@ =~= self.stray@);
        out
    }

    fn removed_copy(&self) -> (r: Vec<u32>)
        ensures
            r@ == self.removed@,
    {
        let mut out: Vec<u32> = Vec::new();
        let mut i: usize = 0;
        while i < self.removed.len()
            invariant
                i <= self.removed@.len(),
                out@ == self.removed@.take(i as int),
            decreases self.removed@.len() - i,
        {
            out.push(self.removed[i]);
            assert(out@ =~= self.removed@.take(i + 1));
            i = i + 1;
        }
        assert(out@ =~= self.removed@);
        out
    }

    fn wrap_up(&mut self) -> (a: GcAction)
        requires
            old(self).report.orphans_removed == 0,
            old(self).report.orphan_bytes == 0,
        ensures
            final(self).wf(),
            (final(self)@, a@) == old(self)@.wrap_up(),
    {
        if self.sweep {
            self.phase = GcPhase::Survey;
            GcAction::Survey
        } else {
            let report = self.report;
            self.finished(Ok(report))
        }
    }

    fn sweep_from(&mut self, j: usize) -> (a: GcAction)
        requires
            old(self).orphans.len() <= u32::MAX,
            j <= old(self).orphans.len(),
            engine::size_sum(old(self).orphans@) <= u64::MAX,
            old(self).report.orphans_removed <= j,
            old(self).report.orphan_bytes <= engine::size_sum(old(self).orphans@.take(j as int)),
        ensures
            final(self).wf(),
            (final(self)@, a@) == old(self)@.sweep_from(j as int),
    {
        if j < self.orphans.len() {
            self.phase = GcPhase::Orphan(j);
            return GcAction::Unlink(self.orphans[j].0);
        }
        if self.removed.len() > 0 {
            self.phase = GcPhase::Clear;
            return GcAction::Forget(self.removed_copy());
        }
        let report = self.report;
        self.finished(Ok(report))
    }

    /// Starts pass number `pass` over the sealed segments, of which one was picked.  Every
    /// fifth pass also sweeps.
    pub fn begin(
        pass: u32,
        sealed: &Vec<(u32, u64)>,
        pick: Option<usize>,
        below_ratio: bool,
    ) -> (r: (GcPass, GcAction))
        requires
            pick matches Some(i) ==> i < sealed@.len(),
        ensures
            r.0.wf(),
            (r.0@, r.1@) == GcView::begun(pass, victim_of(sealed@, pick, below_ratio)),
    {
        let victim: Option<(u32, u64)> = match pick {
            Some(i) => {
                if sealed[i].1 > 0 && below_ratio {
                    None
                } else {
                    Some(sealed[i])
                }
            },
            None => None,
        };
        let victim_seg: Option<u32> = match victim {
            Some(v) => Some(v.0),
            None => None,
        };
        let mut run = GcPass {
            sweep: pass % 5 == 0,
            victim,
            phase: GcPhase::Load,
            records: Vec::new(),
            copy: None,
            moved: 0,
            stray: Vec::new(),
            orphans: Vec::new(),
            removed: Vec::new(),
            report: GcReport {
                victim_seg,
                live_moved: 0,
                reclaimed_bytes: 0,
                orphans_removed: 0,
                orphan_bytes: 0,
            },
        };
        assert(segment::record_views(run.records@) =~= Seq::empty());
        let action = match victim {
            Some(v) => GcAction::Load(v.0),
            None => run.wrap_up(),
        };
        (run, action)
    }

    fn looked(&mut self, i: usize, l: DomainResult<Lookup>) -> (a: GcAction)
        requires
            old(self).wf(),
            old(self).phase == GcPhase::Look(i),
        ensures
            final(self).wf(),
            (final(self)@, a@) == old(self)@.looked(i as int, looked_view(l)),
    {
        match l {
            Ok(x) => {
                if !is_live(&x, &self.records[i].addr) {
                    return self.look_from(i + 1);
                }
            },
            Err(e) => {
                return self.finished(Err(e));
            },
        }
        self.phase = GcPhase::Copy(i);
        let r = &self.records[i];
        GcAction::Copy {
            key: copy_bytes(&r.key),
            stored: copy_bytes(&r.stored),
            logical_len: r.logical_len,
            flags: r.flags,
        }
    }

    fn copied(&mut self, i: usize, to: RecordAddr, crc: u32) -> (a: GcAction)
        requires
            old(self).wf(),
            old(self).phase == GcPhase::Copy(i),
        ensures
            final(self).wf(),
            (final(self)@, a@) == old(self)@.copied(i as int, to, crc),
    {
        self.copy = Some((to, crc));
        self.phase = GcPhase::Move(i);
        let r = &self.records[i];
        GcAction::Move {
            key: copy_bytes(&r.key),
            from: r.addr,
            to,
            crc,
            logical_len: r.logical_len,
            flags: r.flags,
        }
    }

    fn followed(&mut self, i: usize, followed: bool) -> (a: GcAction)
        requires
            old(self).wf(),
            old(self).phase == GcPhase::Move(i),
        ensures
            final(self).wf(),
            (final(self)@, a@) == old(self)@.moved(i as int, followed),
    {
        if followed {
            self.moved = self.moved + 1;
        } else {
            match self.copy {
                Some(c) => {
                    self.stray.push((c.0.seg_id, c.0.stored_len as u64));
                },
                None => {},
            }
        }
        self.look_from(i + 1)
    }

    fn orphan_gone(&mut self, j: usize) -> (a: GcAction)
        requires
            old(self).wf(),
            old(self).phase == GcPhase::Orphan(j),
        ensures
            final(self).wf(),
            (final(self)@, a@) == old(self)@.orphan_gone(j as int),
    {
        proof {
            engine::lemma_size_prefix(self.orphans@, j + 1);
            assert(self.orphans@.take(j + 1).drop_last() =~= self.orphans@.take(j as int));
        }
        let o = self.orphans[j];
        self.report = GcReport {
            victim_seg: self.report.victim_seg,
            live_moved: self.report.live_moved,
            reclaimed_bytes: self.report.reclaimed_bytes,
            orphans_removed: self.report.orphans_removed + 1,
            orphan_bytes: self.report.orphan_bytes + o.1,
        };
        self.removed.push(o.0);
        self.sweep_from(j + 1)
    }

    /// Takes what came of the last action and returns the next one.
    pub fn advance(&mut self, ev: GcEvent) -> (a: GcAction)
        requires
            old(self).wf(),
            ev matches GcEvent::Segments(_, sealed) ==> sealed@.len() <= u32::MAX
                && engine::size_sum(sealed@) <= u64::MAX,
        ensures
            final(self).wf(),
            (final(self)@, a@) == old(self)@.step(ev@),
    {
        match (self.phase, ev) {
            (GcPhase::Orphan(j), GcEvent::Failed(_)) => {
                proof {
                    assert(self.orphans@.take(j + 1).drop_last() =~= self.orphans@.take(j as int));
                }
                self.sweep_from(j + 1)
            },
            (_, GcEvent::Failed(e)) => self.finished(Err(e)),
            (GcPhase::Load, GcEvent::File(b)) => {
                let seg: u32 = match self.victim {
                    Some(v) => v.0,
                    None => 0,
                };
                let len: usize = b.len();
                assert(len == b@.len());
                self.records = scan_segment(b.as_slice(), seg, 0).0;
                self.look_from(0)
            },
            (GcPhase::Look(i), GcEvent::Looked(l)) => self.looked(i, l),
            (GcPhase::Copy(i), GcEvent::Copied(to, crc)) => self.copied(i, to, crc),
            (GcPhase::Move(i), GcEvent::Moved(f)) => self.followed(i, f),
            (GcPhase::Account, GcEvent::Did) => {
                self.phase = GcPhase::Flush;
                GcAction::Flush
            },
            (GcPhase::Flush, GcEvent::Did) => {
                self.phase = GcPhase::Unlink;
                match self.victim {
                    Some(v) => GcAction::Unlink(v.0),
                    None => GcAction::Flush,
                }
            },
            (GcPhase::Unlink, GcEvent::Did) => {
                self.phase = GcPhase::Forget;
                let mut ids: Vec<u32> = Vec::new();
                match self.victim {
                    Some(v) => {
                        ids.push(v.0);
                    },
                    None => {},
                }
                assert(ids@ =~= seq![(self.victim->0).0]);
                GcAction::Forget(ids)
            },
            (GcPhase::Forget, GcEvent::Did) => {
                let freed: u64 = match self.victim {
                    Some(v) => v.1,
                    None => 0,
                };
                self.report = GcReport {
                    victim_seg: self.report.victim_seg,
                    live_moved: self.moved,
                    reclaimed_bytes: freed,
                    orphans_removed: self.report.orphans_removed,
                    orphan_bytes: self.report.orphan_bytes,
                };
                self.wrap_up()
            },
            (GcPhase::Survey, GcEvent::Segments(refs, sealed)) => {
                proof {
                    lemma_orphans_bounds(refs@, sealed@);
                }
                self.orphans = find_orphans(&refs, &sealed);
                self.sweep_from(0)
            },
            (GcPhase::Orphan(j), GcEvent::Did) => self.orphan_gone(j),
            (GcPhase::Clear, GcEvent::Did) => {
                let report = self.report;
                self.finished(Ok(report))
            },
            _ => self.finished(Err(DomainError::Io("gc: unexpected answer".to_owned()))),
        }
    }
}

/// Every record of a scan stands where it says.
proof fn lemma_scanned_stand(buf: Seq<u8>, seg_id: u32, offset: int, i: int)
    requires
        0 <= offset,
        offset + buf.len() <= u64::MAX,
        0 <= i < segment::scanned(buf, seg_id, offset).len(),
    ensures
        ({
            let r = segment::scanned(buf, seg_id, offset)[i];
            &&& r.addr.seg_id == seg_id
            &&& r.key.len() == r.addr.key_len
            &&& r.stored.len() == r.addr.stored_len
            &&& offset <= r.addr.offset <= offset + buf.len()
            &&& segment::record_at(
                buf.skip(r.addr.offset - offset),
                seg_id,
                r.addr.offset as int,
            ) == Some(r)
        }),
    decreases buf.len(),
{
    let r = segment::record_at(buf, seg_id, offset)->0;
    let n = r.addr.total() as int;
    let rest = segment::scanned(buf.skip(n), seg_id, offset + n);
    assert(segment::scanned(buf, seg_id, offset) == seq![r] + rest);
    if i == 0 {
        assert(buf.skip(0) =~= buf);
    } else {
        lemma_scanned_stand(buf.skip(n), seg_id, offset + n, i - 1);
        let x = rest[i - 1];
        assert(segment::scanned(buf, seg_id, offset)[i] == x);
        assert(buf.skip(n).skip(x.addr.offset - (offset + n)) =~= buf.skip(x.addr.offset - offset));
    }
}

/// Whether every row into a segment points at a record that a scan of it finds.
pub open spec fn whole(s: store::Store, seg: u32) -> bool {
    &&& s.files.contains_key(seg)
    &&& s.files[seg].len() <= u64::MAX
    &&& forall|k: Seq<u8>| #[trigger]
        s.points_into(k, seg) ==> scan_finds(
            segment::scanned(s.files[seg], seg, 0),
            index::decoded_addr(s.addr[k])->0.addr.offset,
        )
}

/// Whether one of the records stands at an offset.
pub open spec fn scan_finds(rs: Seq<segment::RecordView>, offset: u64) -> bool {
    exists|i: int| 0 <= i < rs.len() && (#[trigger] rs[i]).addr.offset == offset
}

/// A moment of a collection: the shard, the collection, what it wants done, and the
/// segment that records are appended to.
pub ghost struct GcMoment {
    pub store: store::Store,
    pub state: GcView,
    pub action: GcActionView,
    pub active: u32,
}

/// The record that a copy appends.
pub open spec fn entry_of(key: Seq<u8>, stored: Seq<u8>, logical_len: u32, flags: u16) -> segment::Entry {
    segment::Entry { key, stored, logical_len, flags }
}

/// How a shard that does nothing else carries out an action: `t` is the shard afterwards.
/// Whatever fails leaves the shard as it was.
pub open spec fn carried_out(
    s: store::Store,
    active: u32,
    a: GcActionView,
    t: store::Store,
    ev: GcEventView,
) -> bool {
    ||| ev is Failed && t == s && !(a is Finish)
    ||| match a {
        GcActionView::Load(seg) => {
            &&& t == s
            &&& s.files.contains_key(seg)
            &&& ev == GcEventView::File(s.files[seg])
        },
        GcActionView::Look(k) => {
            &&& t == s
            &&& ev matches GcEventView::Looked(l)
            &&& l is Err || l == s.lookup(k)
        },
        GcActionView::Copy { key, stored, logical_len, flags } => {
            let e = entry_of(key, stored, logical_len, flags);
            let end = s.entry_at_end(active, e, None);
            &&& s.file(active).len() <= u64::MAX
            &&& t == s.append(active, e)
            &&& ev == GcEventView::Copied(end.addr, end.crc)
        },
        GcActionView::Move { key, from, to, crc, logical_len, flags } => match index::moved_row(
            store::row(s.addr, key),
            from,
            to,
            crc,
            logical_len,
            flags,
        ) {
            Some(e) => {
                &&& t == (store::Store { addr: s.addr.insert(key, e.encoded()), ..s })
                &&& ev == GcEventView::Moved(true)
            },
            None => t == s && ev == GcEventView::Moved(false),
        },
        GcActionView::Account(_) => {
            &&& t == (store::Store { discard: t.discard, ..s })
            &&& ev is Did
        },
        GcActionView::Flush => t == s && ev is Did,
        GcActionView::Unlink(seg) => {
            &&& t == (store::Store { files: s.files.remove(seg), ..s })
            &&& ev is Did
        },
        GcActionView::Forget(_) => {
            &&& t == (store::Store { discard: t.discard, ..s })
            &&& ev is Did
        },
        GcActionView::Survey => {
            &&& t == s
            &&& ev matches GcEventView::Segments(refs, _)
            &&& forall|seg: u32| #[trigger] engine::listed(refs, seg) <==> s.refers_to(seg)
        },
        GcActionView::Finish(_) => false,
    }
}

/// Whether one moment of a collection follows another.
pub open spec fn gc_follows(m: GcMoment, n: GcMoment) -> bool {
    exists|ev: GcEventView| #[trigger]
        carried_out(m.store, m.active, m.action, n.store, ev) && (n.state, n.action)
            == m.state.step(ev)
}

/// What holds while the victim's records are gone through.
spec fn scanning(m: GcMoment, i: int) -> bool {
    let seg = (m.state.victim->0).0;
    &&& m.state.victim is Some
    &&& whole(m.store, seg)
    &&& m.state.records == segment::scanned(m.store.files[seg], seg, 0)
    &&& 0 <= i < m.state.records.len() <= usize::MAX
    &&& forall|j: int| 0 <= j < i ==> !m.store.is_live(#[trigger] m.state.records[j])
}

/// What holds at every moment of a collection on the shard `s0`.
spec fn gc_safe(s0: store::Store, m: GcMoment) -> bool {
    let seg = (m.state.victim->0).0;
    let r = m.state.records;
    &&& m.store.inv()
    &&& forall|k: Seq<u8>| #[trigger] m.store.object(k) == s0.object(k)
    &&& match m.state.phase {
        GcPhase::Load => {
            &&& m.state.victim is Some
            &&& m.action == GcActionView::Load(seg)
            &&& whole(m.store, seg)
        },
        GcPhase::Look(i) => scanning(m, i as int) && m.action == GcActionView::Look(
            r[i as int].key,
        ),
        GcPhase::Copy(i) => {
            &&& scanning(m, i as int)
            &&& m.store.is_live(r[i as int])
            &&& m.action == (GcActionView::Copy {
                key: r[i as int].key,
                stored: r[i as int].stored,
                logical_len: r[i as int].logical_len,
                flags: r[i as int].flags,
            })
        },
        GcPhase::Move(i) => {
            let c = m.state.copy->0;
            let x = r[i as int];
            &&& scanning(m, i as int)
            &&& m.store.is_live(x)
            &&& c.0.seg_id != seg
            &&& m.action == (GcActionView::Move {
                key: x.key,
                from: x.addr,
                to: c.0,
                crc: c.1,
                logical_len: x.logical_len,
                flags: x.flags,
            })
            &&& forall|obj: Option<u64>|
                #![trigger row_for(c, x, obj)]
                store::row_ok(m.store.files, x.key, row_for(c, x, obj)) && store::stored_bytes(
                    m.store.files,
                    row_for(c, x, obj),
                ) == x.stored
        },
        GcPhase::Account => {
            &&& m.state.victim is Some
            &&& m.action is Account
            &&& !m.store.refers_to(seg)
        },
        GcPhase::Flush => {
            &&& m.state.victim is Some
            &&& m.action is Flush
            &&& !m.store.refers_to(seg)
        },
        GcPhase::Unlink => {
            &&& m.state.victim is Some
            &&& m.action == GcActionView::Unlink(seg)
            &&& !m.store.refers_to(seg)
        },
        GcPhase::Forget => m.state.victim is Some && m.action is Forget && victim_gone(m),
        GcPhase::Survey => m.action is Survey && victim_gone(m),
        GcPhase::Orphan(j) => {
            &&& victim_gone(m)
            &&& j < m.state.orphans.len() <= usize::MAX
            &&& m.action == GcActionView::Unlink(m.state.orphans[j as int].0)
            &&& forall|x: int|
                j <= x < m.state.orphans.len() ==> !m.store.refers_to(
                    (#[trigger] m.state.orphans[x]).0,
                )
        },
        GcPhase::Clear => m.action is Forget && victim_gone(m),
        GcPhase::Done => {
            &&& m.action is Finish
            &&& m.action == GcActionView::Finish(Ok(m.state.report)) ==> victim_gone(m)
            &&& m.action matches GcActionView::Finish(Ok(x)) ==> x == m.state.report
        },
    }
}

/// The row of a copied record.
spec fn row_for(c: (RecordAddr, u32), r: segment::RecordView, obj: Option<u64>) -> index::AddrEntry {
    index::AddrEntry {
        addr: c.0,
        crc: c.1,
        logical_len: r.logical_len,
        flags: r.flags,
        obj_logical: obj,
    }
}

/// The victim, if there was one, has no file any more.
pub open spec fn victim_gone(m: GcMoment) -> bool {
    m.state.victim matches Some(v) ==> !m.store.files.contains_key(v.0)
}

/// Appending elsewhere leaves a segment whole.
proof fn lemma_append_whole(s: store::Store, seg: u32, active: u32, e: segment::Entry)
    requires
        whole(s, seg),
        active != seg,
    ensures
        whole(s.append(active, e), seg),
        s.append(active, e).files[seg] == s.files[seg],
{
    let t = s.append(active, e);
    assert forall|k: Seq<u8>| #[trigger] t.points_into(k, seg) implies scan_finds(
        segment::scanned(t.files[seg], seg, 0),
        index::decoded_addr(t.addr[k])->0.addr.offset,
    ) by {
        assert(s.points_into(k, seg));
    }
}

/// A live record's row follows its copy: every body stays.
proof fn lemma_move_keeps(s: store::Store, r: segment::RecordView, ne: index::AddrEntry)
    requires
        s.inv(),
        s.is_live(r),
        s.files.contains_key(r.addr.seg_id),
        r.addr.offset <= s.files[r.addr.seg_id].len(),
        segment::record_at(
            s.files[r.addr.seg_id].skip(r.addr.offset as int),
            r.addr.seg_id,
            r.addr.offset as int,
        ) == Some(r),
        ne.logical_len == r.logical_len,
        ne.flags == r.flags,
        store::row_ok(s.files, r.key, ne),
        store::stored_bytes(s.files, ne) == r.stored,
    ensures
        ({
            let t = store::Store { addr: s.addr.insert(r.key, ne.encoded()), ..s };
            &&& t.inv()
            &&& forall|k: Seq<u8>| #[trigger] t.object(k) == s.object(k)
            &&& t.lookup(r.key) == Ok::<index::LookupView, domain::ErrorView>(
                index::LookupView::Addr(ne),
            )
            &&& index::decoded_addr(ne.encoded()) == Some(ne)
        }),
{
    let t = store::Store { addr: s.addr.insert(r.key, ne.encoded()), ..s };
    index::addr_round_trip(ne);
    assert(s.addr.contains_key(r.key));
    let old = index::decoded_addr(s.addr[r.key])->0;
    assert(store::row_ok(s.files, r.key, old));
    assert forall|k: Seq<u8>| #[trigger] t.addr.contains_key(k) implies {
        let x = index::decoded_addr(t.addr[k]);
        &&& x is Some
        &&& store::row_ok(t.files, k, x->0)
        &&& !t.inline.contains_key(k)
    } by {
        assert(s.addr.contains_key(k));
    }
}

/// Once no record of a whole segment is live, nothing refers to it.
proof fn lemma_all_dead(s: store::Store, seg: u32)
    requires
        s.inv(),
        whole(s, seg),
        forall|j: int|
            0 <= j < segment::scanned(s.files[seg], seg, 0).len() ==> !s.is_live(
                #[trigger] segment::scanned(s.files[seg], seg, 0)[j],
            ),
    ensures
        !s.refers_to(seg),
{
    if s.refers_to(seg) {
        let rs = segment::scanned(s.files[seg], seg, 0);
        let k = choose|k: Seq<u8>| #[trigger] s.addr.contains_key(k) && s.points_into(k, seg);
        let e = index::decoded_addr(s.addr[k])->0;
        assert(scan_finds(rs, e.addr.offset));
        let i = choose|i: int| 0 <= i < rs.len() && (#[trigger] rs[i]).addr.offset == e.addr.offset;
        lemma_scanned_stand(s.files[seg], seg, 0, i);
        assert(store::row_ok(s.files, k, e));
        assert(rs[i].key == k);
        assert(s.is_live(rs[i]));
    }
}

/// Going on to the next record, or to the end of the scan.
proof fn lemma_look_from(s0: store::Store, s: store::Store, v: GcView, active: u32, i: int)
    requires
        s.inv(),
        forall|k: Seq<u8>| #[trigger] s.object(k) == s0.object(k),
        v.victim is Some,
        whole(s, (v.victim->0).0),
        v.records == segment::scanned(s.files[(v.victim->0).0], (v.victim->0).0, 0),
        0 <= i <= v.records.len() <= usize::MAX,
        forall|j: int| 0 <= j < i ==> !s.is_live(#[trigger] v.records[j]),
    ensures
        gc_safe(
            s0,
            GcMoment { store: s, state: v.look_from(i).0, action: v.look_from(i).1, active },
        ),
{
    let m = GcMoment { store: s, state: v.look_from(i).0, action: v.look_from(i).1, active };
    if i < v.records.len() {
        assert(scanning(m, i));
    } else {
        lemma_all_dead(s, (v.victim->0).0);
    }
}

/// Going on to the next unreferenced segment, or to the end of the sweep.
proof fn lemma_sweep_from(s0: store::Store, s: store::Store, v: GcView, active: u32, j: int)
    requires
        s.inv(),
        forall|k: Seq<u8>| #[trigger] s.object(k) == s0.object(k),
        victim_gone(GcMoment { store: s, state: v, action: GcActionView::Survey, active }),
        0 <= j <= v.orphans.len() <= usize::MAX,
        forall|x: int| j <= x < v.orphans.len() ==> !s.refers_to((#[trigger] v.orphans[x]).0),
    ensures
        gc_safe(
            s0,
            GcMoment { store: s, state: v.sweep_from(j).0, action: v.sweep_from(j).1, active },
        ),
{
}

proof fn lemma_orphans_unreferenced(
    s: store::Store,
    refs: Seq<(u32, u64)>,
    sealed: Seq<(u32, u64)>,
)
    requires
        forall|seg: u32| #[trigger] engine::listed(refs, seg) <==> s.refers_to(seg),
    ensures
        forall|x: int|
            0 <= x < orphans_of(refs, sealed).len() ==> !s.refers_to(
                (#[trigger] orphans_of(refs, sealed)[x]).0,
            ),
    decreases sealed.len(),
{
    if sealed.len() > 0 {
        lemma_orphans_unreferenced(s, refs, sealed.drop_last());
        let rest = orphans_of(refs, sealed.drop_last());
        let all = orphans_of(refs, sealed);
        assert(engine::listed(refs, sealed.last().0) <==> s.refers_to(sealed.last().0));
        assert forall|x: int| 0 <= x < all.len() implies !s.refers_to((#[trigger] all[x]).0) by {
            if x < rest.len() {
                assert(all[x] == rest[x]);
            }
        }
    }
}

/// Without a file that nothing refers to, the references are the same.
proof fn lemma_refers_without(s: store::Store, gone: u32, seg: u32)
    ensures
        (store::Store { files: s.files.remove(gone), ..s }).refers_to(seg) == s.refers_to(seg),
{
    let t = store::Store { files: s.files.remove(gone), ..s };
    if s.refers_to(seg) {
        let k = choose|k: Seq<u8>| #[trigger] s.addr.contains_key(k) && s.points_into(k, seg);
        assert(t.addr.contains_key(k) && t.points_into(k, seg));
    }
    if t.refers_to(seg) {
        let k = choose|k: Seq<u8>| #[trigger] t.addr.contains_key(k) && t.points_into(k, seg);
        assert(s.addr.contains_key(k) && s.points_into(k, seg));
    }
}

/// A copied record stands at the end of the log.
proof fn lemma_copied(s0: store::Store, m: GcMoment, n: GcMoment, i: usize)
    requires
        gc_safe(s0, m),
        m.state.phase == GcPhase::Copy(i),
        m.active != (m.state.victim->0).0,
        n.store == m.store.append(
            m.active,
            entry_of(
                m.state.records[i as int].key,
                m.state.records[i as int].stored,
                m.state.records[i as int].logical_len,
                m.state.records[i as int].flags,
            ),
        ),
        m.store.file(m.active).len() <= u64::MAX,
        ({
            let x = m.state.records[i as int];
            let end = m.store.entry_at_end(
                m.active,
                entry_of(x.key, x.stored, x.logical_len, x.flags),
                None,
            );
            (n.state, n.action) == m.state.copied(i as int, end.addr, end.crc)
        }),
    ensures
        gc_safe(s0, n),
{
    let seg = (m.state.victim->0).0;
    let s = m.store;
    let x = m.state.records[i as int];
    let e = entry_of(x.key, x.stored, x.logical_len, x.flags);
    let c = n.state.copy->0;
    lemma_scanned_stand(s.files[seg], seg, 0, i as int);
    assert(e.fits());
    store::lemma_append_keeps(s, m.active, e);
    lemma_append_whole(s, seg, m.active, e);
    assert forall|obj: Option<u64>|
        #![trigger row_for(c, x, obj)]
        store::row_ok(n.store.files, x.key, row_for(c, x, obj)) && store::stored_bytes(
            n.store.files,
            row_for(c, x, obj),
        ) == x.stored by {
        store::lemma_row_ok_new(s, m.active, e, obj);
        assert(row_for(c, x, obj) == s.entry_at_end(m.active, e, obj));
    }
    assert forall|j: int| 0 <= j < i implies !n.store.is_live(#[trigger] n.state.records[j]) by {
        assert(!s.is_live(m.state.records[j]));
    }
    assert forall|k: Seq<u8>| #[trigger] n.store.object(k) == s0.object(k) by {
        assert(n.store.object(k) == s.object(k));
        assert(s.object(k) == s0.object(k));
    }
    assert(scanning(n, i as int));
}

/// A row that followed points away from the victim.
proof fn lemma_moved(s0: store::Store, m: GcMoment, n: GcMoment, i: usize, followed: bool)
    requires
        gc_safe(s0, m),
        m.state.phase == GcPhase::Move(i),
        carried_out(m.store, m.active, m.action, n.store, GcEventView::Moved(followed)),
        (n.state, n.action) == m.state.moved(i as int, followed),
    ensures
        gc_safe(s0, n),
{
    let seg = (m.state.victim->0).0;
    let s = m.store;
    let t = n.store;
    let rs = m.state.records;
    let x = rs[i as int];
    let c = m.state.copy->0;
    lemma_scanned_stand(s.files[seg], seg, 0, i as int);
    assert(s.addr.contains_key(x.key));
    let old = index::decoded_addr(s.addr[x.key])->0;
    let ne = row_for(c, x, old.obj_logical);
    assert(index::moved_row(
        store::row(s.addr, x.key),
        x.addr,
        c.0,
        c.1,
        x.logical_len,
        x.flags,
    ) == Some(ne));
    lemma_move_keeps(s, x, ne);
    assert(t == (store::Store { addr: s.addr.insert(x.key, ne.encoded()), ..s }));
    assert forall|k: Seq<u8>| #[trigger] t.points_into(k, seg) implies scan_finds(
        segment::scanned(t.files[seg], seg, 0),
        index::decoded_addr(t.addr[k])->0.addr.offset,
    ) by {
        assert(k != x.key);
        assert(s.points_into(k, seg));
    }
    assert(whole(t, seg));
    assert forall|j: int| 0 <= j < i + 1 implies !t.is_live(#[trigger] rs[j]) by {
        lemma_scanned_stand(s.files[seg], seg, 0, j);
        if rs[j].key != x.key {
            assert(t.lookup(rs[j].key) == s.lookup(rs[j].key));
            assert(j != i);
            assert(!s.is_live(rs[j]));
        }
    }
    assert forall|k: Seq<u8>| #[trigger] t.object(k) == s0.object(k) by {
        assert(t.object(k) == s.object(k));
        assert(s.object(k) == s0.object(k));
    }
    let v = if followed {
        GcView { moved: m.state.moved + 1, ..m.state }
    } else {
        GcView { stray: m.state.stray.push((c.0.seg_id, c.0.stored_len as u64)), ..m.state }
    };
    lemma_look_from(s0, t, v, n.active, i + 1);
    assert(n == (GcMoment {
        store: t,
        state: v.look_from(i + 1).0,
        action: v.look_from(i + 1).1,
        active: n.active,
    }));
}

/// Removing a file that nothing refers to keeps every body.
proof fn lemma_unlinked(s0: store::Store, s: store::Store, seg: u32)
    requires
        s.inv(),
        forall|k: Seq<u8>| #[trigger] s.object(k) == s0.object(k),
        !s.refers_to(seg),
    ensures
        ({
            let t = store::Store { files: s.files.remove(seg), ..s };
            &&& t.inv()
            &&& forall|k: Seq<u8>| #[trigger] t.object(k) == s0.object(k)
        }),
{
    store::unlink_unreferenced(s, seg);
    let t = store::Store { files: s.files.remove(seg), ..s };
    let u = s.unlink(seg);
    assert forall|k: Seq<u8>| #[trigger] t.addr.contains_key(k) implies {
        let x = index::decoded_addr(t.addr[k]);
        &&& x is Some
        &&& store::row_ok(t.files, k, x->0)
        &&& !t.inline.contains_key(k)
    } by {
        assert(u.addr.contains_key(k));
    }
    assert forall|k: Seq<u8>| #[trigger] t.object(k) == s0.object(k) by {
        assert(u.object(k) == s.object(k));
        assert(s.object(k) == s0.object(k));
    }
}

/// Counters do not matter to bodies.
proof fn lemma_counters(s0: store::Store, s: store::Store, t: store::Store)
    requires
        s.inv(),
        forall|k: Seq<u8>| #[trigger] s.object(k) == s0.object(k),
        t == (store::Store { discard: t.discard, ..s }),
    ensures
        t.inv(),
        forall|k: Seq<u8>| #[trigger] t.object(k) == s0.object(k),
        forall|seg: u32| #[trigger] t.refers_to(seg) == s.refers_to(seg),
{
    assert forall|k: Seq<u8>| #[trigger] t.addr.contains_key(k) implies {
        let x = index::decoded_addr(t.addr[k]);
        &&& x is Some
        &&& store::row_ok(t.files, k, x->0)
        &&& !t.inline.contains_key(k)
    } by {
        assert(s.addr.contains_key(k));
    }
    assert forall|k: Seq<u8>| #[trigger] t.object(k) == s0.object(k) by {
        assert(s.object(k) == s0.object(k));
    }
    assert forall|seg: u32| #[trigger] t.refers_to(seg) == s.refers_to(seg) by {
        if s.refers_to(seg) {
            let k = choose|k: Seq<u8>| #[trigger] s.addr.contains_key(k) && s.points_into(k, seg);
            assert(t.addr.contains_key(k) && t.points_into(k, seg));
        }
        if t.refers_to(seg) {
            let k = choose|k: Seq<u8>| #[trigger] t.addr.contains_key(k) && t.points_into(k, seg);
            assert(s.addr.contains_key(k) && s.points_into(k, seg));
        }
    }
}

/// Every step of a collection keeps what holds at every moment.
#[verifier::rlimit(60)]
proof fn lemma_gc_step(s0: store::Store, m: GcMoment, n: GcMoment)
    requires
        gc_safe(s0, m),
        gc_follows(m, n),
        m.state.victim matches Some(v) ==> m.active != v.0,
        n.state.records.len() <= usize::MAX,
        n.state.orphans.len() <= usize::MAX,
    ensures
        gc_safe(s0, n),
        n.state.victim == m.state.victim,
{
    let ev = choose|ev: GcEventView| #[trigger]
        carried_out(m.store, m.active, m.action, n.store, ev) && (n.state, n.action)
            == m.state.step(ev);
    let seg = (m.state.victim->0).0;
    let s = m.store;
    let t = n.store;
    if ev is Failed {
        if m.state.phase is Orphan {
            lemma_sweep_from(s0, s, m.state, n.active, m.state.phase->Orphan_0 + 1);
        }
    } else {
        match m.state.phase {
            GcPhase::Load => {
                let v = GcView { records: segment::scanned(s.files[seg], seg, 0), ..m.state };
                lemma_look_from(s0, s, v, n.active, 0);
            },
            GcPhase::Look(i) => {
                let r = m.state.records[i as int];
                if s.is_live(r) {
                    assert(scanning(n, i as int));
                } else {
                    lemma_look_from(s0, s, m.state, n.active, i + 1);
                }
            },
            GcPhase::Copy(i) => {
                lemma_copied(s0, m, n, i);
            },
            GcPhase::Move(i) => {
                lemma_moved(s0, m, n, i, ev->Moved_0);
            },
            GcPhase::Account => {
                lemma_counters(s0, s, t);
            },
            GcPhase::Flush => {},
            GcPhase::Unlink => {
                lemma_unlinked(s0, s, seg);
            },
            GcPhase::Forget => {
                lemma_counters(s0, s, t);
            },
            GcPhase::Survey => {
                let refs = ev->Segments_0;
                let sealed = ev->Segments_1;
                lemma_orphans_unreferenced(s, refs, sealed);
                let v = GcView { orphans: orphans_of(refs, sealed), ..m.state };
                lemma_sweep_from(s0, s, v, n.active, 0);
            },
            GcPhase::Orphan(j) => {
                let gone = m.state.orphans[j as int].0;
                assert(!s.refers_to(gone));
                lemma_unlinked(s0, s, gone);
                assert forall|x: int| j + 1 <= x < m.state.orphans.len() implies !t.refers_to(
                    (#[trigger] m.state.orphans[x]).0,
                ) by {
                    lemma_refers_without(s, gone, m.state.orphans[x].0);
                }
                let v = GcView {
                    report: GcReport {
                        orphans_removed: (m.state.report.orphans_removed + 1) as u32,
                        orphan_bytes: (m.state.report.orphan_bytes
                            + m.state.orphans[j as int].1) as u64,
                        ..m.state.report
                    },
                    removed: m.state.removed.push(gone),
                    ..m.state
                };
                lemma_sweep_from(s0, t, v, n.active, j + 1);
            },
            GcPhase::Clear => {
                lemma_counters(s0, s, t);
            },
            GcPhase::Done => {},
        }
    }
}

/// The moments of a collection of `victim` on the shard `s0`, from its first on.
pub open spec fn is_collection(
    s0: store::Store,
    pass: u32,
    victim: Option<(u32, u64)>,
    run: Seq<GcMoment>,
) -> bool {
    &&& run.len() > 0
    &&& run[0].store == s0
    &&& (run[0].state, run[0].action) == GcView::begun(pass, victim)
    &&& forall|i: int|
        0 < i < run.len() ==> gc_follows(run[i - 1], #[trigger] run[i])
    &&& forall|i: int|
        0 <= i < run.len() ==> {
            &&& (#[trigger] run[i]).state.records.len() <= usize::MAX
            &&& run[i].state.orphans.len() <= usize::MAX
            // the victim is sealed: nothing is appended to it
            &&& victim matches Some(v) ==> run[i].active != v.0
        }
}

proof fn lemma_collection(
    s0: store::Store,
    pass: u32,
    victim: Option<(u32, u64)>,
    run: Seq<GcMoment>,
    i: int,
)
    requires
        s0.inv(),
        is_collection(s0, pass, victim, run),
        victim matches Some(v) ==> whole(s0, v.0),
        0 <= i < run.len(),
    ensures
        gc_safe(s0, run[i]),
        run[i].state.victim == victim,
    decreases i,
{
    if i > 0 {
        lemma_collection(s0, pass, victim, run, i - 1);
        assert(gc_follows(run[i - 1], run[i]));
        lemma_gc_step(s0, run[i - 1], run[i]);
    }
}

/// What the report of a collection says so far, and what it left alone.
spec fn told_safe(s0: store::Store, m: GcMoment) -> bool {
    let rep = m.state.report;
    let past = m.state.phase is Survey || m.state.phase is Orphan || m.state.phase is Clear || (
    m.action matches GcActionView::Finish(Ok(_)));
    &&& forall|k: Seq<u8>| #[trigger] m.store.stat(k) == s0.stat(k)
    &&& rep.victim_seg == (match m.state.victim {
        Some(v) => Some(v.0),
        None => None,
    })
    &&& match m.state.victim {
        Some(v) => past ==> rep.reclaimed_bytes == v.1,
        None => {
            &&& rep.reclaimed_bytes == 0
            &&& rep.live_moved == 0
            &&& m.store.addr == s0.addr
            &&& past || m.state.phase is Done
        },
    }
}

/// A row that follows its record keeps its sizes.
proof fn lemma_moved_sizes(s0: store::Store, m: GcMoment, t: store::Store, f: bool, k: Seq<u8>)
    requires
        gc_safe(s0, m),
        m.state.phase is Move,
        carried_out(m.store, m.active, m.action, t, GcEventView::Moved(f)),
    ensures
        t.stat(k) == m.store.stat(k),
        t.inline == m.store.inline,
{
    let s = m.store;
    let i = m.state.phase->Move_0;
    let seg = (m.state.victim->0).0;
    let x = m.state.records[i as int];
    let c = m.state.copy->0;
    lemma_scanned_stand(s.files[seg], seg, 0, i as int);
    assert(s.addr.contains_key(x.key));
    let old = index::decoded_addr(s.addr[x.key])->0;
    assert(store::row_ok(s.files, x.key, old));
    index::addr_round_trip(row_for(c, x, old.obj_logical));
}

/// Only a move changes rows.
proof fn lemma_rows_stay(
    s: store::Store,
    active: u32,
    a: GcActionView,
    t: store::Store,
    ev: GcEventView,
)
    requires
        carried_out(s, active, a, t, ev),
        !(a is Move) || ev is Failed,
    ensures
        t.addr == s.addr,
        t.inline == s.inline,
{
}

/// A step goes on with the report.
#[verifier::rlimit(40)]
proof fn lemma_report_step(v: GcView, ev: GcEventView)
    ensures
        ({
            let n = v.step(ev);
            let rep = n.0.report;
            let past = v.phase is Survey || v.phase is Orphan || v.phase is Clear;
            let now = n.0.phase is Survey || n.0.phase is Orphan || n.0.phase is Clear || (
            n.1 matches GcActionView::Finish(Ok(_)));
            &&& n.0.victim == v.victim
            &&& rep.victim_seg == v.report.victim_seg
            &&& now ==> past || v.phase is Forget
            &&& v.phase is Forget && now ==> rep.reclaimed_bytes == (v.victim->0).1
            &&& past ==> rep.reclaimed_bytes == v.report.reclaimed_bytes && rep.live_moved
                == v.report.live_moved && (now || n.0.phase is Done)
            &&& v.phase is Done ==> rep == v.report && n.0.phase is Done
        }),
{
}

/// A step keeps the sizes and goes on with the report.
proof fn lemma_told_step(s0: store::Store, m: GcMoment, n: GcMoment)
    requires
        gc_safe(s0, m),
        told_safe(s0, m),
        gc_follows(m, n),
    ensures
        told_safe(s0, n),
{
    let ev = choose|ev: GcEventView| #[trigger]
        carried_out(m.store, m.active, m.action, n.store, ev) && (n.state, n.action)
            == m.state.step(ev);
    let s = m.store;
    let t = n.store;
    lemma_report_step(m.state, ev);
    if m.state.phase is Move && !(ev is Failed) {
        assert(m.action is Move);
        assert(ev is Moved);
        assert forall|k: Seq<u8>| #[trigger] t.stat(k) == s0.stat(k) by {
            lemma_moved_sizes(s0, m, t, ev->Moved_0, k);
            assert(s.stat(k) == s0.stat(k));
        }
    } else {
        assert(m.action is Move ==> m.state.phase is Move);
        lemma_rows_stay(s, m.active, m.action, t, ev);
        assert forall|k: Seq<u8>| #[trigger] t.stat(k) == s0.stat(k) by {
            assert(t.lookup(k) == s.lookup(k));
            assert(s.stat(k) == s0.stat(k));
        }
    }
}

proof fn lemma_told(
    s0: store::Store,
    pass: u32,
    victim: Option<(u32, u64)>,
    run: Seq<GcMoment>,
    i: int,
)
    requires
        s0.inv(),
        is_collection(s0, pass, victim, run),
        victim matches Some(v) ==> whole(s0, v.0),
        0 <= i < run.len(),
    ensures
        told_safe(s0, run[i]),
    decreases i,
{
    lemma_collection(s0, pass, victim, run, i);
    if i > 0 {
        lemma_told(s0, pass, victim, run, i - 1);
        lemma_collection(s0, pass, victim, run, i - 1);
        assert(gc_follows(run[i - 1], run[i]));
        lemma_told_step(s0, run[i - 1], run[i]);
    }
}

/// At no moment does a collection lose or change a body or a size, wherever it stops and
/// whichever of its steps fails, a lookup among them: the shard's rows always point at intact
/// records.  Once it ends well the victim's file is gone, and the report gives its number and
/// size; without a victim no record was moved.  This holds of a victim whose live records a
/// scan finds.  A scan ends at a damaged record, so what stands behind one in the victim is
/// not copied and goes with the file.
pub proof fn collections_keep_every_body(
    s0: store::Store,
    pass: u32,
    victim: Option<(u32, u64)>,
    run: Seq<GcMoment>,
    i: int,
)
    requires
        s0.inv(),
        is_collection(s0, pass, victim, run),
        victim matches Some(v) ==> whole(s0, v.0),
        0 <= i < run.len(),
    ensures
        run[i].store.inv(),
        forall|k: Seq<u8>| #[trigger] run[i].store.object(k) == s0.object(k),
        forall|k: Seq<u8>| #[trigger] run[i].store.stat(k) == s0.stat(k),
        run[i].action matches GcActionView::Finish(Ok(rep)) ==> match victim {
            Some(v) => {
                &&& rep.victim_seg == Some(v.0)
                &&& rep.reclaimed_bytes == v.1
                &&& !run[i].store.files.contains_key(v.0)
            },
            None => {
                &&& rep.victim_seg is None
                &&& rep.reclaimed_bytes == 0
                &&& rep.live_moved == 0
            },
        },
        victim is None ==> run[i].store.addr == s0.addr,
{
    lemma_collection(s0, pass, victim, run, i);
    lemma_told(s0, pass, victim, run, i);
}

/// The victim of a collection is a sealed segment of which none holds more garbage, with
/// enough of it for its size; without garbage there is no victim.
pub proof fn victims_hold_the_most_garbage(
    sealed: Seq<(u32, u64)>,
    discards: Seq<u64>,
    pick: Option<usize>,
    below_ratio: bool,
)
    requires
        sealed.len() == discards.len(),
        engine::holds_most(discards, pick),
    ensures
        match victim_of(sealed, pick, below_ratio) {
            Some(v) => exists|i: int|
                {
                    &&& 0 <= i < sealed.len()
                    &&& #[trigger] sealed[i] == v
                    &&& discards[i] > 0
                    &&& forall|j: int| 0 <= j < discards.len() ==> discards[j] <= discards[i]
                    &&& v.1 > 0 ==> !below_ratio
                },
            None => (forall|j: int| 0 <= j < discards.len() ==> discards[j] == 0) || below_ratio,
        },
{
    if let Some(i) = pick {
        assert(sealed[i as int] == sealed[i as int]);
    }
}

/// A segment's file is removed only after its live records were made durable elsewhere,
/// or because nothing refers to it.
pub proof fn unlink_only_after_flush(v: GcView, ev: GcEventView)
    requires
        v.step(ev).1 is Unlink,
    ensures
        v.phase is Flush && ev is Did || v.phase is Survey || v.phase is Orphan,
{
}

/// How far a collection is from its end: a stage, and what is left of the stage.
pub open spec fn gc_left(v: GcView) -> (int, int) {
    match v.phase {
        GcPhase::Load => (10, 0),
        GcPhase::Look(i) => (9, 3 * (v.records.len() - i) + 2),
        GcPhase::Copy(i) => (9, 3 * (v.records.len() - i) + 1),
        GcPhase::Move(i) => (9, 3 * (v.records.len() - i)),
        GcPhase::Account => (8, 0),
        GcPhase::Flush => (7, 0),
        GcPhase::Unlink => (6, 0),
        GcPhase::Forget => (5, 0),
        GcPhase::Survey => (4, 0),
        GcPhase::Orphan(j) => (3, v.orphans.len() - j),
        GcPhase::Clear => (2, 0),
        GcPhase::Done => (1, 0),
    }
}

/// Every answer brings a collection nearer to its end.
pub proof fn collections_end(v: GcView, ev: GcEventView)
    requires
        !(v.phase is Done),
        v.step(ev).0.records.len() <= usize::MAX,
        v.step(ev).0.orphans.len() <= usize::MAX,
    ensures
        ({
            let a = gc_left(v);
            let b = gc_left(v.step(ev).0);
            b.0 < a.0 || (b.0 == a.0 && b.1 < a.1)
        }),
{
}

/// What an eviction is waiting for.
#[derive(Clone, Copy, Debug, PartialEq, Eq, Structural)]
pub enum EvictPhase {
    /// the bytes of the victim
    Load,
    /// what the index knows of the key of this record
    Look(usize),
    /// the rows to go
    Drop,
    /// the file to go
    Unlink,
    Done,
}

/// An eviction in progress.
#[derive(Debug)]
pub struct EvictPass {
    /// segment and file size
    pub victim: (u32, u64),
    pub phase: EvictPhase,
    /// the records of the victim
    pub records: Vec<RecoveredRecord>,
    /// keys whose bodies go
    pub doomed: Vec<Vec<u8>>,
    /// how many keys went
    pub count: usize,
}

/// [`EvictPass`] by value.
pub ghost struct EvictView {
    pub victim: (u32, u64),
    pub phase: EvictPhase,
    pub records: Seq<segment::RecordView>,
    pub doomed: Seq<Seq<u8>>,
    pub count: int,
}

impl View for EvictPass {
    type V = EvictView;

    open spec fn view(&self) -> EvictView {
        EvictView {
            victim: self.victim,
            phase: self.phase,
            records: segment::record_views(self.records@),
            doomed: engine::row_views(self.doomed@),
            count: self.count as int,
        }
    }
}

/// What came of the last action.
#[derive(Debug)]
pub enum EvictEvent {
    File(Vec<u8>),
    Looked(DomainResult<Lookup>),
    Did,
    Failed(DomainError),
}

/// [`EvictEvent`] by value.
pub ghost enum EvictEventView {
    File(Seq<u8>),
    Looked(Result<index::LookupView, domain::ErrorView>),
    Did,
    Failed(domain::ErrorView),
}

impl View for EvictEvent {
    type V = EvictEventView;

    open spec fn view(&self) -> EvictEventView {
        match *self {
            EvictEvent::File(b) => EvictEventView::File(b@),
            EvictEvent::Looked(l) => EvictEventView::Looked(looked_view(l)),
            EvictEvent::Did => EvictEventView::Did,
            EvictEvent::Failed(e) => EvictEventView::Failed(e@),
        }
    }
}

/// What an eviction wants done.
#[derive(Debug)]
pub enum EvictAction {
    /// read a segment
    Load(u32),
    /// look a key up
    Look(Vec<u8>),
    /// remove the address rows of these keys and a segment's garbage counter, in one
    /// transaction
    Drop(Vec<Vec<u8>>, u32),
    /// remove a segment's file
    Unlink(u32),
    /// bytes and keys that went
    Finish(DomainResult<(u64, usize)>),
}

/// [`EvictAction`] by value.
pub ghost enum EvictActionView {
    Load(u32),
    Look(Seq<u8>),
    Drop(Seq<Seq<u8>>, u32),
    Unlink(u32),
    Finish(Result<(u64, usize), domain::ErrorView>),
}

/// What went, by value.
pub open spec fn went_view(r: DomainResult<(u64, usize)>) -> Result<
    (u64, usize),
    domain::ErrorView,
> {
    match r {
        Ok(x) => Ok(x),
        Err(e) => Err(e@),
    }
}

impl View for EvictAction {
    type V = EvictActionView;

    open spec fn view(&self) -> EvictActionView {
        match *self {
            EvictAction::Load(s) => EvictActionView::Load(s),
            EvictAction::Look(k) => EvictActionView::Look(k@),
            EvictAction::Drop(ks, s) => EvictActionView::Drop(engine::row_views(ks@), s),
            EvictAction::Unlink(s) => EvictActionView::Unlink(s),
            EvictAction::Finish(r) => EvictActionView::Finish(went_view(r)),
        }
    }
}

impl EvictView {
    pub open spec fn at(self, phase: EvictPhase) -> EvictView {
        EvictView { phase, ..self }
    }

    pub open spec fn finished(self, r: Result<(u64, usize), domain::ErrorView>) -> (
        EvictView,
        EvictActionView,
    ) {
        (self.at(EvictPhase::Done), EvictActionView::Finish(r))
    }

    /// Go through the records from number `i` on, then remove the rows that were found.
    pub open spec fn look_from(self, i: int) -> (EvictView, EvictActionView) {
        if i < self.records.len() {
            (self.at(EvictPhase::Look(i as usize)), EvictActionView::Look(self.records[i].key))
        } else {
            (
                EvictView {
                    count: self.doomed.len() as int,
                    doomed: Seq::empty(),
                    ..self
                }.at(EvictPhase::Drop),
                EvictActionView::Drop(self.doomed, self.victim.0),
            )
        }
    }

    /// A record found live loses its row; of one that could not be looked up nobody knows,
    /// so nothing goes.
    pub open spec fn looked(self, i: int, l: Result<index::LookupView, domain::ErrorView>) -> (
        EvictView,
        EvictActionView,
    ) {
        let r = self.records[i];
        match l {
            Ok(x) => if found_live(x, r.addr) {
                EvictView { doomed: self.doomed.push(r.key), ..self }.look_from(i + 1)
            } else {
                self.look_from(i + 1)
            },
            Err(e) => self.finished(Err(e)),
        }
    }

    /// What happens next.
    pub open spec fn step(self, ev: EvictEventView) -> (EvictView, EvictActionView) {
        match (self.phase, ev) {
            (_, EvictEventView::Failed(e)) => self.finished(Err(e)),
            (EvictPhase::Load, EvictEventView::File(b)) => EvictView {
                records: segment::scanned(b, self.victim.0, 0),
                ..self
            }.look_from(0),
            (EvictPhase::Look(i), EvictEventView::Looked(l)) => self.looked(i as int, l),
            (EvictPhase::Drop, EvictEventView::Did) => (
                self.at(EvictPhase::Unlink),
                EvictActionView::Unlink(self.victim.0),
            ),
            (EvictPhase::Unlink, EvictEventView::Did) => self.finished(
                Ok((self.victim.1, self.count as usize)),
            ),
            _ => self.finished(Err(domain::ErrorView::Io("evict: unexpected answer"@))),
        }
    }

    /// The state before the first answer.  Without a sealed segment nothing goes.
    pub open spec fn begun(oldest: Option<(u32, u64)>) -> (EvictView, EvictActionView) {
        let v = EvictView {
            victim: match oldest {
                Some(x) => x,
                None => (0, 0),
            },
            phase: EvictPhase::Load,
            records: Seq::empty(),
            doomed: Seq::empty(),
            count: 0,
        };
        match oldest {
            Some(x) => (v, EvictActionView::Load(x.0)),
            None => v.finished(Ok((0, 0))),
        }
    }
}

impl EvictPass {
    pub open spec fn wf(self) -> bool {
        self.phase matches EvictPhase::Look(i) ==> i < self.records.len()
    }

    fn finished(&mut self, r: DomainResult<(u64, usize)>) -> (a: EvictAction)
        ensures
            final(self).wf(),
            (final(self)@, a@) == old(self)@.finished(went_view(r)),
    {
        self.phase = EvictPhase::Done;
        EvictAction::Finish(r)
    }

    fn look_from(&mut self, i: usize) -> (a: EvictAction)
        ensures
            final(self).wf(),
            (final(self)@, a@) == old(self)@.look_from(i as int),
    {
        if i < self.records.len() {
            self.phase = EvictPhase::Look(i);
            return EvictAction::Look(copy_bytes(&self.records[i].key));
        }
        self.phase = EvictPhase::Drop;
        self.count = self.doomed.len();
        let mut keys: Vec<Vec<u8>> = Vec::new();
        std::mem::swap(&mut keys, &mut self.doomed);
        assert(engine::row_views(self.doomed@) =~= Seq::empty());
        EvictAction::Drop(keys, self.victim.0)
    }

    /// Starts the eviction of the oldest sealed segment.
    pub fn begin(oldest: Option<(u32, u64)>) -> (r: (EvictPass, EvictAction))
        ensures
            r.0.wf(),
            (r.0@, r.1@) == EvictView::begun(oldest),
    {
        let mut run = EvictPass {
            victim: match oldest {
                Some(v) => v,
                None => (0, 0),
            },
            phase: EvictPhase::Load,
            records: Vec::new(),
            doomed: Vec::new(),
            count: 0,
        };
        assert(segment::record_views(run.records@) =~= Seq::empty());
        assert(engine::row_views(run.doomed@) =~= Seq::empty());
        let action = match oldest {
            Some(v) => EvictAction::Load(v.0),
            None => run.finished(Ok((0, 0))),
        };
        (run, action)
    }

    /// Takes what came of the last action and returns the next one.
    pub fn advance(&mut self, ev: EvictEvent) -> (a: EvictAction)
        requires
            old(self).wf(),
        ensures
            final(self).wf(),
            (final(self)@, a@) == old(self)@.step(ev@),
    {
        match (self.phase, ev) {
            (_, EvictEvent::Failed(e)) => self.finished(Err(e)),
            (EvictPhase::Load, EvictEvent::File(b)) => {
                let len: usize = b.len();
                assert(len == b@.len());
                self.records = scan_segment(b.as_slice(), self.victim.0, 0).0;
                self.look_from(0)
            },
            (EvictPhase::Look(i), EvictEvent::Looked(l)) => {
                let found = match l {
                    Ok(x) => x,
                    Err(e) => {
                        return self.finished(Err(e));
                    },
                };
                if is_live(&found, &self.records[i].addr) {
                    let ghost before = engine::row_views(self.doomed@);
                    let key = copy_bytes(&self.records[i].key);
                    let ghost k = key@;
                    self.doomed.push(key);
                    assert(engine::row_views(self.doomed@) =~= before.push(k));
                }
                self.look_from(i + 1)
            },
            (EvictPhase::Drop, EvictEvent::Did) => {
                self.phase = EvictPhase::Unlink;
                EvictAction::Unlink(self.victim.0)
            },
            (EvictPhase::Unlink, EvictEvent::Did) => {
                let went = (self.victim.1, self.count);
                self.finished(Ok(went))
            },
            _ => self.finished(Err(DomainError::Io("evict: unexpected answer".to_owned()))),
        }
    }
}

/// A moment of an eviction.
pub ghost struct EvictMoment {
    pub store: store::Store,
    pub state: EvictView,
    pub action: EvictActionView,
}

/// How a shard that does nothing else carries out an action of an eviction.
pub open spec fn evict_carried_out(
    s: store::Store,
    a: EvictActionView,
    t: store::Store,
    ev: EvictEventView,
) -> bool {
    ||| ev is Failed && t == s && !(a is Finish)
    ||| match a {
        EvictActionView::Load(seg) => {
            &&& t == s
            &&& s.files.contains_key(seg)
            &&& ev == EvictEventView::File(s.files[seg])
        },
        EvictActionView::Look(k) => {
            &&& t == s
            &&& ev matches EvictEventView::Looked(l)
            &&& l is Err || l == s.lookup(k)
        },
        EvictActionView::Drop(ks, seg) => {
            &&& t == (store::Store {
                addr: s.addr.remove_keys(ks.to_set()),
                discard: s.discard.remove(seg),
                ..s
            })
            &&& ev is Did
        },
        EvictActionView::Unlink(seg) => {
            &&& t == (store::Store { files: s.files.remove(seg), ..s })
            &&& ev is Did
        },
        EvictActionView::Finish(_) => false,
    }
}

/// Whether one moment of an eviction follows another.
pub open spec fn evict_follows(m: EvictMoment, n: EvictMoment) -> bool {
    exists|ev: EvictEventView| #[trigger]
        evict_carried_out(m.store, m.action, n.store, ev) && (n.state, n.action)
            == m.state.step(ev)
}

/// The keys of the live records among the first `i`.
spec fn live_keys(s: store::Store, rs: Seq<segment::RecordView>, i: int) -> Seq<Seq<u8>>
    decreases i,
{
    if i <= 0 {
        Seq::empty()
    } else {
        let rest = live_keys(s, rs, i - 1);
        if s.is_live(rs[i - 1]) {
            rest.push(rs[i - 1].key)
        } else {
            rest
        }
    }
}

/// What holds at every moment of an eviction on the shard `s0`.
spec fn evict_safe(s0: store::Store, m: EvictMoment) -> bool {
    let seg = m.state.victim.0;
    let rs = segment::scanned(s0.files[seg], seg, 0);
    match m.state.phase {
        EvictPhase::Load => m.store == s0 && m.action == EvictActionView::Load(seg)
            && m.state.doomed.len() == 0,
        EvictPhase::Look(i) => {
            &&& m.store == s0
            &&& m.state.records == rs
            &&& i < rs.len() <= usize::MAX
            &&& m.action == EvictActionView::Look(rs[i as int].key)
            &&& m.state.doomed == live_keys(s0, rs, i as int)
        },
        EvictPhase::Drop => m.store == s0 && m.action == EvictActionView::Drop(
            live_keys(s0, rs, rs.len() as int),
            seg,
        ),
        EvictPhase::Unlink => {
            &&& m.store == (store::Store { files: s0.files, ..s0.evict(seg) })
            &&& m.action == EvictActionView::Unlink(seg)
        },
        EvictPhase::Done => {
            &&& m.action is Finish
            &&& (m.store == s0 || m.store == (store::Store { files: s0.files, ..s0.evict(seg) })
                || m.store == s0.evict(seg))
            &&& m.action matches EvictActionView::Finish(Ok(_)) ==> m.store == s0.evict(seg)
        },
    }
}

proof fn lemma_live_keys(s: store::Store, rs: Seq<segment::RecordView>, i: int, k: Seq<u8>)
    requires
        0 <= i <= rs.len(),
    ensures
        live_keys(s, rs, i).contains(k) <==> exists|j: int|
            0 <= j < i && (#[trigger] rs[j]).key == k && s.is_live(rs[j]),
    decreases i,
{
    if i > 0 {
        lemma_live_keys(s, rs, i - 1, k);
        let rest = live_keys(s, rs, i - 1);
        let all = live_keys(s, rs, i);
        if all.contains(k) {
            let x = choose|x: int| 0 <= x < all.len() && all[x] == k;
            if x < rest.len() {
                assert(rest[x] == k);
                assert(rest.contains(k));
            } else {
                assert(rs[i - 1].key == k && s.is_live(rs[i - 1]));
            }
        }
        if exists|j: int| 0 <= j < i && (#[trigger] rs[j]).key == k && s.is_live(rs[j]) {
            let j = choose|j: int| 0 <= j < i && (#[trigger] rs[j]).key == k && s.is_live(rs[j]);
            if j < i - 1 {
                assert(rest.contains(k));
                let x = choose|x: int| 0 <= x < rest.len() && rest[x] == k;
                assert(all[x] == k);
            } else {
                assert(all[all.len() - 1] == k);
            }
        }
    }
}

/// The keys of the live records of a whole segment are those whose rows point into it.
proof fn lemma_doomed(s: store::Store, seg: u32)
    requires
        s.inv(),
        whole(s, seg),
    ensures
        ({
            let rs = segment::scanned(s.files[seg], seg, 0);
            s.addr.remove_keys(live_keys(s, rs, rs.len() as int).to_set()) == s.evict(seg).addr
        }),
{
    let rs = segment::scanned(s.files[seg], seg, 0);
    let n = rs.len() as int;
    let a = s.addr.remove_keys(live_keys(s, rs, n).to_set());
    let b = s.evict(seg).addr;
    assert forall|k: Seq<u8>| #[trigger] a.contains_key(k) <==> b.contains_key(k) by {
        lemma_live_keys(s, rs, n, k);
        if s.addr.contains_key(k) {
            let e = index::decoded_addr(s.addr[k])->0;
            if s.points_into(k, seg) {
                assert(scan_finds(rs, e.addr.offset));
                let i = choose|i: int|
                    0 <= i < rs.len() && (#[trigger] rs[i]).addr.offset == e.addr.offset;
                lemma_scanned_stand(s.files[seg], seg, 0, i);
                assert(store::row_ok(s.files, k, e));
                assert(rs[i].key == k && s.is_live(rs[i]));
            } else if live_keys(s, rs, n).contains(k) {
                let j = choose|j: int|
                    0 <= j < n && (#[trigger] rs[j]).key == k && s.is_live(rs[j]);
                lemma_scanned_stand(s.files[seg], seg, 0, j);
            }
        }
    }
    assert(a =~= b);
}

proof fn lemma_evict_step(s0: store::Store, m: EvictMoment, n: EvictMoment)
    requires
        s0.inv(),
        whole(s0, m.state.victim.0),
        evict_safe(s0, m),
        evict_follows(m, n),
        n.state.records.len() <= usize::MAX,
    ensures
        evict_safe(s0, n),
        n.state.victim == m.state.victim,
{
    let ev = choose|ev: EvictEventView| #[trigger]
        evict_carried_out(m.store, m.action, n.store, ev) && (n.state, n.action) == m.state.step(
            ev,
        );
    let seg = m.state.victim.0;
    let rs = segment::scanned(s0.files[seg], seg, 0);
    if !(ev is Failed) {
        match m.state.phase {
            EvictPhase::Load => {
                assert(m.state.doomed =~= live_keys(s0, rs, 0));
            },
            EvictPhase::Drop => {
                lemma_doomed(s0, seg);
                assert(n.store =~= (store::Store { files: s0.files, ..s0.evict(seg) }));
            },
            EvictPhase::Unlink => {
                assert(n.store =~= s0.evict(seg));
            },
            _ => {},
        }
    }
}

/// The moments of an eviction of `oldest` from the shard `s0`, from its first on.
pub open spec fn is_eviction(s0: store::Store, oldest: (u32, u64), run: Seq<EvictMoment>) -> bool {
    &&& run.len() > 0
    &&& run[0].store == s0
    &&& (run[0].state, run[0].action) == EvictView::begun(Some(oldest))
    &&& forall|i: int| 0 < i < run.len() ==> evict_follows(run[i - 1], #[trigger] run[i])
    &&& forall|i: int| 0 <= i < run.len() ==> (#[trigger] run[i]).state.records.len() <= usize::MAX
}

proof fn lemma_eviction(s0: store::Store, oldest: (u32, u64), run: Seq<EvictMoment>, i: int)
    requires
        s0.inv(),
        is_eviction(s0, oldest, run),
        whole(s0, oldest.0),
        0 <= i < run.len(),
    ensures
        evict_safe(s0, run[i]),
        run[i].state.victim == oldest,
    decreases i,
{
    if i > 0 {
        lemma_eviction(s0, oldest, run, i - 1);
        assert(evict_follows(run[i - 1], run[i]));
        lemma_evict_step(s0, run[i - 1], run[i]);
    }
}

/// At every moment of an eviction the rows point at intact records, and a body that does
/// not lie in the evicted segment is untouched; once it ends well exactly the bodies of
/// that segment are gone.
pub proof fn evictions_take_only_their_segment(
    s0: store::Store,
    oldest: (u32, u64),
    run: Seq<EvictMoment>,
    i: int,
)
    requires
        s0.inv(),
        is_eviction(s0, oldest, run),
        whole(s0, oldest.0),
        0 <= i < run.len(),
    ensures
        run[i].store.inv(),
        forall|k: Seq<u8>|
            !s0.points_into(k, oldest.0) ==> #[trigger] run[i].store.object(k) == s0.object(k),
        run[i].action matches EvictActionView::Finish(Ok(_)) ==> run[i].store == s0.evict(oldest.0),
{
    lemma_eviction(s0, oldest, run, i);
    store::evict_removes_only_its_keys(s0, oldest.0);
    let t = run[i].store;
    let u = s0.evict(oldest.0);
    if t == (store::Store { files: s0.files, ..u }) {
        assert forall|k: Seq<u8>| #[trigger] t.addr.contains_key(k) implies {
            let x = index::decoded_addr(t.addr[k]);
            &&& x is Some
            &&& store::row_ok(t.files, k, x->0)
            &&& !t.inline.contains_key(k)
        } by {
            assert(s0.addr.contains_key(k));
        }
        assert forall|k: Seq<u8>| !s0.points_into(k, oldest.0) implies #[trigger] t.object(k)
            == s0.object(k) by {
            if s0.addr.contains_key(k) {
                assert(t.addr.contains_key(k));
            }
        }
    }
}

/// A record that the index points at is copied whole, at any length; any other is passed over.
/// Where the index cannot tell, the collection stops.
pub proof fn live_records_are_copied_whole(
    v: GcView,
    i: usize,
    e: index::AddrEntry,
    body: Seq<u8>,
    why: domain::ErrorView,
)
    requires
        v.phase == GcPhase::Look(i),
        i < v.records.len(),
    ensures
        ({
            let r = v.records[i as int];
            let live = e.addr.seg_id == r.addr.seg_id && e.addr.offset == r.addr.offset;
            let a = v.step(GcEventView::Looked(Ok(index::LookupView::Addr(e)))).1;
            &&& live ==> a == (GcActionView::Copy {
                key: r.key,
                stored: r.stored,
                logical_len: r.logical_len,
                flags: r.flags,
            })
            &&& !live && i + 1 < v.records.len() ==> a == GcActionView::Look(v.records[i + 1].key)
        }),
        i + 1 < v.records.len() ==> v.step(
            GcEventView::Looked(Ok(index::LookupView::Inline(body))),
        ).1 == GcActionView::Look(v.records[i + 1].key),
        i + 1 < v.records.len() ==> v.step(
            GcEventView::Looked(Ok(index::LookupView::Missing)),
        ).1 == GcActionView::Look(v.records[i + 1].key),
        v.step(GcEventView::Looked(Err(why))).1 == GcActionView::Finish(Err(why)),
{
}

/// The row of a copied record follows it to the copy; a copy whose row did not follow is
/// counted as garbage of its segment, with all its bytes.
pub proof fn rows_follow_their_copies(
    v: GcView,
    i: usize,
    to: RecordAddr,
    crc: u32,
    followed: bool,
)
    requires
        i < v.records.len(),
    ensures
        v.phase == GcPhase::Copy(i) ==> ({
            let r = v.records[i as int];
            let (w, a) = v.step(GcEventView::Copied(to, crc));
            &&& a == (GcActionView::Move {
                key: r.key,
                from: r.addr,
                to,
                crc,
                logical_len: r.logical_len,
                flags: r.flags,
            })
            &&& w.copy == Some((to, crc)) && w.phase == GcPhase::Move(i)
        }),
        v.phase == GcPhase::Move(i) && v.copy == Some((to, crc)) ==> ({
            let (w, a) = v.step(GcEventView::Moved(followed));
            &&& w.moved == v.moved + if followed {
                1int
            } else {
                0
            }
            &&& followed ==> w.stray == v.stray
            &&& !followed ==> w.stray == v.stray.push((to.seg_id, to.stored_len as u64))
            &&& i + 1 < v.records.len() ==> a == GcActionView::Look(v.records[i + 1].key)
            &&& i + 1 >= v.records.len() && w.stray.len() > 0 ==> a == GcActionView::Account(
                w.stray,
            )
            &&& i + 1 >= v.records.len() && w.stray.len() == 0 ==> a is Flush
        }),
{
}

/// A victim goes once its records are safe: its file, then its counter; the report tells what
/// was moved and all the bytes that came free.
pub proof fn victims_go_at_the_end(v: GcView, victim: (u32, u64))
    requires
        v.victim == Some(victim),
        0 <= v.moved <= usize::MAX,
    ensures
        v.phase is Account ==> v.step(GcEventView::Did).1 is Flush,
        v.phase is Flush ==> v.step(GcEventView::Did).1 == GcActionView::Unlink(victim.0),
        v.phase is Unlink ==> v.step(GcEventView::Did).1 == GcActionView::Forget(seq![victim.0]),
        v.phase is Forget ==> ({
            let (w, a) = v.step(GcEventView::Did);
            &&& w.report.live_moved == v.moved
            &&& w.report.reclaimed_bytes == victim.1
            &&& w.report.victim_seg == v.report.victim_seg
            &&& v.sweep ==> a is Survey
            &&& !v.sweep ==> a == GcActionView::Finish(Ok(w.report))
        }),
{
}

/// A collection reads its victim; without one it does nothing, but every fifth pass sweeps.
pub proof fn collections_begin_with_the_victim(pass: u32, victim: Option<(u32, u64)>)
    ensures
        ({
            let (v, a) = GcView::begun(pass, victim);
            &&& v.sweep <==> pass % 5 == 0
            &&& victim matches Some(x) ==> a == GcActionView::Load(x.0) && v.report.victim_seg
                == Some(x.0)
            &&& victim is None && pass % 5 == 0 ==> a is Survey
            &&& victim is None && pass % 5 != 0 ==> a == GcActionView::Finish(Ok(v.report))
            &&& v.report.live_moved == 0 && v.report.reclaimed_bytes == 0
                && v.report.orphans_removed == 0 && v.report.orphan_bytes == 0
        }),
{
}

/// A sealed segment is swept exactly when no row refers to it.
pub proof fn unreferenced_segments_are_swept(
    refs: Seq<(u32, u64)>,
    sealed: Seq<(u32, u64)>,
    x: (u32, u64),
)
    ensures
        orphans_of(refs, sealed).contains(x) <==> sealed.contains(x) && forall|i: int|
            0 <= i < refs.len() ==> (#[trigger] refs[i]).0 != x.0,
    decreases sealed.len(),
{
    if sealed.len() > 0 {
        let p = sealed.drop_last();
        unreferenced_segments_are_swept(refs, p, x);
        let all = orphans_of(refs, sealed);
        let rest = orphans_of(refs, p);
        if rest.contains(x) {
            let j = choose|j: int| 0 <= j < rest.len() && rest[j] == x;
            assert(all[j] == x);
        }
        if p.contains(x) {
            let j = choose|j: int| 0 <= j < p.len() && p[j] == x;
            assert(sealed[j] == x);
        }
        if sealed.contains(x) {
            let j = choose|j: int| 0 <= j < sealed.len() && sealed[j] == x;
            if j < p.len() {
                assert(p[j] == x);
            }
        }
        if all.contains(x) && !rest.contains(x) {
            let j = choose|j: int| 0 <= j < all.len() && all[j] == x;
            if j < rest.len() {
                assert(rest[j] == x);
            }
            assert(sealed[sealed.len() - 1] == x);
        }
        if sealed.last() == x && !engine::listed(refs, x.0) {
            assert(all[rest.len() as int] == x);
        }
    }
}

/// Every unreferenced segment is removed in turn and counted with all its bytes; one that
/// cannot be removed is left and not counted.
pub proof fn sweeps_remove_every_orphan(v: GcView, j: usize, e: domain::ErrorView)
    requires
        v.phase == GcPhase::Orphan(j),
        j < v.orphans.len() <= usize::MAX,
        v.report.orphans_removed < u32::MAX,
        v.report.orphan_bytes + v.orphans[j as int].1 <= u64::MAX,
    ensures
        ({
            let (w, a) = v.step(GcEventView::Did);
            &&& w.report.orphans_removed == v.report.orphans_removed + 1
            &&& w.report.orphan_bytes == v.report.orphan_bytes + v.orphans[j as int].1
            &&& w.removed == v.removed.push(v.orphans[j as int].0)
            &&& j + 1 < v.orphans.len() ==> a == GcActionView::Unlink(v.orphans[j + 1].0)
            &&& j + 1 >= v.orphans.len() ==> a == GcActionView::Forget(w.removed)
        }),
        ({
            let (w, a) = v.step(GcEventView::Failed(e));
            &&& w.report == v.report && w.removed == v.removed
            &&& j + 1 < v.orphans.len() ==> a == GcActionView::Unlink(v.orphans[j + 1].0)
        }),
{
}

/// An eviction drops the rows of exactly the keys whose records it found live in its segment,
/// then removes the file, and reports all its bytes and the number of those keys.
pub proof fn evictions_drop_live_keys(
    v: EvictView,
    i: usize,
    e: index::AddrEntry,
    body: Seq<u8>,
    why: domain::ErrorView,
)
    requires
        i < v.records.len(),
        0 <= v.count <= usize::MAX,
    ensures
        v.phase == EvictPhase::Look(i) && i + 1 < v.records.len() ==> ({
            let r = v.records[i as int];
            let live = e.addr.seg_id == r.addr.seg_id && e.addr.offset == r.addr.offset;
            let (w, a) = v.step(EvictEventView::Looked(Ok(index::LookupView::Addr(e))));
            &&& live ==> w.doomed == v.doomed.push(r.key)
            &&& !live ==> w.doomed == v.doomed
            &&& a == EvictActionView::Look(v.records[i + 1].key)
        }),
        v.phase == EvictPhase::Look(i) && i + 1 == v.records.len() ==> ({
            let r = v.records[i as int];
            let live = e.addr.seg_id == r.addr.seg_id && e.addr.offset == r.addr.offset;
            let (w, a) = v.step(EvictEventView::Looked(Ok(index::LookupView::Addr(e))));
            &&& live ==> a == EvictActionView::Drop(v.doomed.push(r.key), v.victim.0) && w.count
                == v.doomed.len() + 1
            &&& !live ==> a == EvictActionView::Drop(v.doomed, v.victim.0) && w.count
                == v.doomed.len()
        }),
        v.phase == EvictPhase::Look(i) && i + 1 == v.records.len() ==> v.step(
            EvictEventView::Looked(Ok(index::LookupView::Inline(body))),
        ).1 == EvictActionView::Drop(v.doomed, v.victim.0),
        v.phase == EvictPhase::Look(i) ==> v.step(EvictEventView::Looked(Err(why))).1
            == EvictActionView::Finish(Err(why)),
        v.phase is Drop ==> v.step(EvictEventView::Did).1 == EvictActionView::Unlink(v.victim.0),
        v.phase is Unlink ==> v.step(EvictEventView::Did).1 == EvictActionView::Finish(
            Ok((v.victim.1, v.count as usize)),
        ),
{
}

/// Whatever else fails ends a collection or an eviction with that failure.
pub proof fn failures_end_the_work(v: GcView, w: EvictView, e: domain::ErrorView)
    ensures
        !(v.phase is Orphan) ==> v.step(GcEventView::Failed(e)).1 == GcActionView::Finish(Err(e)),
        w.step(EvictEventView::Failed(e)).1 == EvictActionView::Finish(Err(e)),
{
}

} // verus!
