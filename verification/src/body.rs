//! A body put on a shard: written first, then entered in the index.
//!
//! A crash or a failure between the two leaves garbage in a segment, never a row without
//! its record. A write that finds the disk full is repeated once, when ballast can be
//! given up for it.
use vstd::prelude::*;
use vstd::string::*;
use crate::bytes;
use crate::domain::{DomainError, DomainResult};
use crate::domain;
use crate::engine;
use crate::index::{plan_body, AddrEntry, BodyPlan};
use crate::index;
use crate::segment::RecordAddr;
use crate::segment;
use crate::store;

verus! {

/// What a put is waiting for.
#[derive(Clone, Copy, Debug, PartialEq, Eq, Structural)]
pub enum PutPhase {
    /// the inline table to be changed
    Inline,
    /// the record to be written
    Write,
    /// the ballast to be given up
    Release,
    /// the record to be written after that
    Rewrite,
    /// the address table to be changed
    Index,
    Done,
}

/// A put in progress.
#[derive(Debug)]
pub struct PutPass {
    pub phase: PutPhase,
    /// the body as it is stored
    pub stored: Vec<u8>,
    pub logical_len: u32,
    pub flags: u16,
    /// the length of the object that a piece belongs to
    pub obj: Option<u64>,
    /// whether there is ballast to give up
    pub ballast: bool,
    /// why the first write failed
    pub fault: Option<DomainError>,
}

/// [`PutPass`] by value.
pub ghost struct PutView {
    pub phase: PutPhase,
    pub stored: Seq<u8>,
    pub logical_len: u32,
    pub flags: u16,
    pub obj: Option<u64>,
    pub ballast: bool,
    pub fault: Option<domain::ErrorView>,
}

/// An error that may be there, by value.
pub open spec fn fault_view(f: Option<DomainError>) -> Option<domain::ErrorView> {
    match f {
        Some(e) => Some(e@),
        None => None,
    }
}

impl View for PutPass {
    type V = PutView;

    open spec fn view(&self) -> PutView {
        PutView {
            phase: self.phase,
            stored: self.stored@,
            logical_len: self.logical_len,
            flags: self.flags,
            obj: self.obj,
            ballast: self.ballast,
            fault: fault_view(self.fault),
        }
    }
}

/// What came of the last action.
#[derive(Debug)]
pub enum PutEvent {
    /// where the record was written, and its checksum
    Written(RecordAddr, u32),
    /// the disk is full
    Full(DomainError),
    /// whether the ballast was there to be given up
    Released(bool),
    Did,
    Failed(DomainError),
}

/// [`PutEvent`] by value.
pub ghost enum PutEventView {
    Written(RecordAddr, u32),
    Full(domain::ErrorView),
    Released(bool),
    Did,
    Failed(domain::ErrorView),
}

impl View for PutEvent {
    type V = PutEventView;

    open spec fn view(&self) -> PutEventView {
        match *self {
            PutEvent::Written(a, c) => PutEventView::Written(a, c),
            PutEvent::Full(e) => PutEventView::Full(e@),
            PutEvent::Released(r) => PutEventView::Released(r),
            PutEvent::Did => PutEventView::Did,
            PutEvent::Failed(e) => PutEventView::Failed(e@),
        }
    }
}

/// What a put wants done.
#[derive(Debug)]
pub enum PutAction {
    /// put the stored body into the inline table
    Inline,
    /// append the stored body to the log
    Append,
    /// remove the ballast
    Release,
    /// enter the record into the address table
    Index(AddrEntry),
    Finish(DomainResult<()>),
}

/// [`PutAction`] by value.
pub ghost enum PutActionView {
    Inline,
    Append,
    Release,
    Index(AddrEntry),
    Finish(Result<(), domain::ErrorView>),
}

/// An outcome by value.
pub open spec fn outcome_view(r: DomainResult<()>) -> Result<(), domain::ErrorView> {
    match r {
        Ok(_) => Ok(()),
        Err(e) => Err(e@),
    }
}

impl View for PutAction {
    type V = PutActionView;

    open spec fn view(&self) -> PutActionView {
        match *self {
            PutAction::Inline => PutActionView::Inline,
            PutAction::Append => PutActionView::Append,
            PutAction::Release => PutActionView::Release,
            PutAction::Index(e) => PutActionView::Index(e),
            PutAction::Finish(r) => PutActionView::Finish(outcome_view(r)),
        }
    }
}

impl PutView {
    pub open spec fn at(self, phase: PutPhase) -> PutView {
        PutView { phase, ..self }
    }

    pub open spec fn finished(self, r: Result<(), domain::ErrorView>) -> (PutView, PutActionView) {
        (self.at(PutPhase::Done), PutActionView::Finish(r))
    }

    /// The row of the record that was written.
    pub open spec fn entry(self, addr: RecordAddr, crc: u32) -> AddrEntry {
        AddrEntry {
            addr,
            crc,
            logical_len: self.logical_len,
            flags: self.flags,
            obj_logical: self.obj,
        }
    }

    /// What happens next.
    pub open spec fn step(self, ev: PutEventView) -> (PutView, PutActionView) {
        match (self.phase, ev) {
            (_, PutEventView::Failed(e)) => self.finished(Err(e)),
            (PutPhase::Inline, PutEventView::Did) => self.finished(Ok(())),
            (PutPhase::Write, PutEventView::Written(a, c)) => (
                self.at(PutPhase::Index),
                PutActionView::Index(self.entry(a, c)),
            ),
            (PutPhase::Write, PutEventView::Full(e)) => if self.ballast {
                (
                    PutView { fault: Some(e), ..self }.at(PutPhase::Release),
                    PutActionView::Release,
                )
            } else {
                self.finished(Err(e))
            },
            (PutPhase::Release, PutEventView::Released(removed)) => if removed {
                (self.at(PutPhase::Rewrite), PutActionView::Append)
            } else {
                self.finished(Err(self.fault->0))
            },
            (PutPhase::Rewrite, PutEventView::Written(a, c)) => (
                self.at(PutPhase::Index),
                PutActionView::Index(self.entry(a, c)),
            ),
            (PutPhase::Rewrite, PutEventView::Full(e)) => self.finished(Err(e)),
            (PutPhase::Index, PutEventView::Did) => self.finished(Ok(())),
            _ => self.finished(Err(domain::ErrorView::Io("put: unexpected answer"@))),
        }
    }
}

/// The error of a put whose key no record can hold.
pub open spec fn long_key() -> domain::ErrorView {
    domain::ErrorView::Io("put: key longer than 65535 bytes"@)
}

/// The error of a put whose body no record can hold.
pub open spec fn long_body() -> domain::ErrorView {
    domain::ErrorView::Io("put: body longer than 4294967295 bytes"@)
}

/// Whether a put starts as it should for a body: inline where that is due, else with
/// bytes that stand for the body; what no record can hold is refused.
pub open spec fn put_begun(
    v: PutView,
    a: PutActionView,
    key: Seq<u8>,
    data: Seq<u8>,
    obj: Option<u64>,
    inline_min: u32,
    compress_zstd: bool,
    compress_min: u32,
    ballast_bytes: u64,
) -> bool {
    &&& v.obj == obj
    &&& v.ballast == (ballast_bytes > 0)
    &&& v.fault is None
    &&& if index::goes_inline(data.len(), obj, inline_min) {
        &&& (v.phase, a) == (PutPhase::Inline, PutActionView::Inline)
        &&& v.stored == data
        &&& v.logical_len == data.len()
        &&& v.flags == 0
    } else if key.len() >= 0x1_0000 {
        (v.phase, a) == (PutPhase::Done, PutActionView::Finish(Err(long_key())))
    } else if data.len() >= 0x1_0000_0000 {
        (v.phase, a) == (PutPhase::Done, PutActionView::Finish(Err(long_body())))
    } else {
        &&& (v.phase, a) == (PutPhase::Write, PutActionView::Append)
        &&& (v.stored, v.flags) == index::stored_form(data, compress_zstd, compress_min)
        &&& v.logical_len == data.len()
        &&& index::stores(v.stored, v.flags, data)
    }
}

impl PutPass {
    /// An error is kept while the ballast is given up.
    pub open spec fn wf(self) -> bool {
        self.phase is Release ==> self.fault is Some
    }

    fn finished(&mut self, r: DomainResult<()>) -> (a: PutAction)
        ensures
            final(self).wf(),
            (final(self)@, a@) == old(self)@.finished(outcome_view(r)),
    {
        self.phase = PutPhase::Done;
        PutAction::Finish(r)
    }

    /// Starts a put.
    pub fn begin(
        key: &[u8],
        data: &[u8],
        obj: Option<u64>,
        inline_min: u32,
        compress_zstd: bool,
        compress_min: u32,
        ballast_bytes: u64,
    ) -> (r: (PutPass, PutAction))
        ensures
            r.0.wf(),
            put_begun(
                r.0@,
                r.1@,
                key@,
                data@,
                obj,
                inline_min,
                compress_zstd,
                compress_min,
                ballast_bytes,
            ),
    {
        let ballast = ballast_bytes > 0;
        let refused = PutPass {
            phase: PutPhase::Done,
            stored: Vec::new(),
            logical_len: 0,
            flags: 0,
            obj,
            ballast,
            fault: None,
        };
        match plan_body(key.len(), data, obj, inline_min, compress_zstd, compress_min) {
            BodyPlan::LongKey => {
                let e = DomainError::Io("put: key longer than 65535 bytes".to_owned());
                (refused, PutAction::Finish(Err(e)))
            },
            BodyPlan::LongBody => {
                let e = DomainError::Io("put: body longer than 4294967295 bytes".to_owned());
                (refused, PutAction::Finish(Err(e)))
            },
            BodyPlan::Inline => {
                let stored = bytes::copy_range(data, 0, data.len());
                assert(stored@ =~= data@);
                (
                    PutPass {
                        phase: PutPhase::Inline,
                        stored,
                        logical_len: data.len() as u32,
                        flags: 0,
                        obj,
                        ballast,
                        fault: None,
                    },
                    PutAction::Inline,
                )
            },
            BodyPlan::Segment { stored, logical_len, flags } => (
                PutPass {
                    phase: PutPhase::Write,
                    stored,
                    logical_len,
                    flags,
                    obj,
                    ballast,
                    fault: None,
                },
                PutAction::Append,
            ),
        }
    }

    fn written(&mut self, addr: RecordAddr, crc: u32) -> (a: PutAction)
        ensures
            final(self).wf(),
            final(self)@ == old(self)@.at(PutPhase::Index),
            a@ == PutActionView::Index(old(self)@.entry(addr, crc)),
    {
        self.phase = PutPhase::Index;
        PutAction::Index(
            AddrEntry {
                addr,
                crc,
                logical_len: self.logical_len,
                flags: self.flags,
                obj_logical: self.obj,
            },
        )
    }

    /// Takes what came of the last action and returns the next one.
    pub fn advance(&mut self, ev: PutEvent) -> (a: PutAction)
        requires
            old(self).wf(),
        ensures
            final(self).wf(),
            (final(self)@, a@) == old(self)@.step(ev@),
    {
        match (self.phase, ev) {
            (_, PutEvent::Failed(e)) => self.finished(Err(e)),
            (PutPhase::Inline, PutEvent::Did) => self.finished(Ok(())),
            (PutPhase::Write, PutEvent::Written(a, c)) => self.written(a, c),
            (PutPhase::Write, PutEvent::Full(e)) => {
                if self.ballast {
                    self.fault = Some(e);
                    self.phase = PutPhase::Release;
                    PutAction::Release
                } else {
                    self.finished(Err(e))
                }
            },
            (PutPhase::Release, PutEvent::Released(removed)) => {
                if removed {
                    self.phase = PutPhase::Rewrite;
                    return PutAction::Append;
                }
                let e = match &self.fault {
                    Some(e) => e.clone(),
                    None => DomainError::NotFound,
                };
                self.finished(Err(e))
            },
            (PutPhase::Rewrite, PutEvent::Written(a, c)) => self.written(a, c),
            (PutPhase::Rewrite, PutEvent::Full(e)) => self.finished(Err(e)),
            (PutPhase::Index, PutEvent::Did) => self.finished(Ok(())),
            _ => self.finished(Err(DomainError::Io("put: unexpected answer".to_owned()))),
        }
    }
}

/// A moment of a put: the shard, the put, what it wants done, and the segment that
/// records are appended to.
pub ghost struct PutMoment {
    pub store: store::Store,
    pub state: PutView,
    pub action: PutActionView,
    pub active: u32,
}

/// The record of a put.
pub open spec fn put_entry(v: PutView, key: Seq<u8>) -> segment::Entry {
    segment::Entry { key, stored: v.stored, logical_len: v.logical_len, flags: v.flags }
}

/// How a shard that does nothing else carries out an action of a put: the shard afterwards
/// is `t`.  Whatever fails leaves the shard as it was.
pub open spec fn put_carried_out(
    key: Seq<u8>,
    m: PutMoment,
    t: store::Store,
    ev: PutEventView,
) -> bool {
    let s = m.store;
    let e = put_entry(m.state, key);
    ||| (ev is Failed || ev is Full) && t == s && !(m.action is Finish)
    ||| match m.action {
        PutActionView::Inline => t == s.put_inline(key, m.state.stored) && ev is Did,
        PutActionView::Append => {
            let end = s.entry_at_end(m.active, e, None);
            &&& s.file(m.active).len() <= u64::MAX
            &&& t == s.append(m.active, e)
            &&& ev == PutEventView::Written(end.addr, end.crc)
        },
        PutActionView::Release => t == s && ev is Released,
        PutActionView::Index(r) => {
            &&& t == s.apply(key, index::addr_put(r, store::row(s.addr, key)))
            &&& ev is Did
        },
        PutActionView::Finish(_) => false,
    }
}

/// Whether one moment of a put follows another.
pub open spec fn put_follows(key: Seq<u8>, m: PutMoment, n: PutMoment) -> bool {
    exists|ev: PutEventView| #[trigger]
        put_carried_out(key, m, n.store, ev) && (n.state, n.action) == m.state.step(ev)
}

/// The moments of a put of `data` under `key` on the shard `s0`, from its first on.
pub open spec fn is_put(
    s0: store::Store,
    key: Seq<u8>,
    data: Seq<u8>,
    obj: Option<u64>,
    cfg: engine::EngineConfig,
    run: Seq<PutMoment>,
) -> bool {
    &&& run.len() > 0
    &&& run[0].store == s0
    &&& put_begun(
        run[0].state,
        run[0].action,
        key,
        data,
        obj,
        cfg.inline_min,
        cfg.compress_zstd,
        cfg.compress_min,
        cfg.ballast_bytes,
    )
    &&& forall|i: int| 0 < i < run.len() ==> put_follows(key, run[i - 1], #[trigger] run[i])
}

/// Whether a put has taken effect: the key has the new body and the others theirs.
pub open spec fn is_put_in(
    s0: store::Store,
    s: store::Store,
    key: Seq<u8>,
    data: Seq<u8>,
    obj: Option<u64>,
) -> bool {
    &&& s.object(key) == Some(data)
    &&& s.stat(key) == Ok::<(u64, Option<u64>), domain::ErrorView>((data.len() as u64, obj))
    &&& forall|k: Seq<u8>| k != key ==> #[trigger] s.object(k) == s0.object(k)
}

/// What holds at every moment of a put on the shard `s0`.
spec fn put_safe(
    s0: store::Store,
    key: Seq<u8>,
    data: Seq<u8>,
    obj: Option<u64>,
    m: PutMoment,
) -> bool {
    let old = forall|k: Seq<u8>| #[trigger] m.store.object(k) == s0.object(k);
    &&& m.store.inv()
    &&& m.state.obj == obj
    &&& match m.state.phase {
        PutPhase::Inline => {
            &&& old
            &&& m.action == PutActionView::Inline
            &&& m.state.stored == data
            &&& data.len() < 0x1_0000_0000
            &&& obj is None
        },
        PutPhase::Write => old && m.action == PutActionView::Append && writes(m.state, key, data),
        PutPhase::Release => old && m.action == PutActionView::Release && writes(m.state, key, data),
        PutPhase::Rewrite => old && m.action == PutActionView::Append && writes(m.state, key, data),
        PutPhase::Index => {
            &&& old
            &&& writes(m.state, key, data)
            &&& m.action is Index
            &&& store::row_ok(m.store.files, key, m.action->Index_0)
            &&& store::stored_bytes(m.store.files, m.action->Index_0) == m.state.stored
            &&& m.action->Index_0.flags == m.state.flags
            &&& m.action->Index_0.logical_len == m.state.logical_len
            &&& m.action->Index_0.obj_logical == obj
        },
        PutPhase::Done => {
            &&& m.action is Finish
            &&& if m.action == PutActionView::Finish(Ok(())) {
                is_put_in(s0, m.store, key, data, obj)
            } else {
                old
            }
        },
    }
}

/// The bytes to be written stand for the body.
spec fn writes(v: PutView, key: Seq<u8>, data: Seq<u8>) -> bool {
    &&& key.len() < 0x1_0000
    &&& data.len() < 0x1_0000_0000
    &&& index::stores(v.stored, v.flags, data)
    &&& v.logical_len == data.len()
}

/// Entering an intact record into the index.
proof fn lemma_indexed(
    s0: store::Store,
    s: store::Store,
    key: Seq<u8>,
    e: AddrEntry,
    data: Seq<u8>,
    obj: Option<u64>,
)
    requires
        s.inv(),
        forall|k: Seq<u8>| #[trigger] s.object(k) == s0.object(k),
        store::row_ok(s.files, key, e),
        index::stores(store::stored_bytes(s.files, e), e.flags, data),
        data.len() < 0x1_0000_0000,
        e.logical_len == data.len(),
        e.obj_logical == obj,
    ensures
        s.apply(key, index::addr_put(e, store::row(s.addr, key))).inv(),
        is_put_in(s0, s.apply(key, index::addr_put(e, store::row(s.addr, key))), key, data, obj),
{
    let t = s.apply(key, index::addr_put(e, store::row(s.addr, key)));
    index::addr_round_trip(e);
    index::body_round_trip(store::stored_bytes(s.files, e), e.flags, data);
    assert forall|k: Seq<u8>| #[trigger] t.addr.contains_key(k) implies {
        let x = index::decoded_addr(t.addr[k]);
        &&& x is Some
        &&& store::row_ok(t.files, k, x->0)
        &&& !t.inline.contains_key(k)
    } by {
        if k != key {
            assert(s.addr.contains_key(k));
        }
    }
    assert forall|k: Seq<u8>| k != key implies #[trigger] t.object(k) == s0.object(k) by {
        assert(s.object(k) == s0.object(k));
    }
}

proof fn lemma_put_step(
    s0: store::Store,
    key: Seq<u8>,
    data: Seq<u8>,
    obj: Option<u64>,
    m: PutMoment,
    n: PutMoment,
)
    requires
        put_safe(s0, key, data, obj, m),
        put_follows(key, m, n),
    ensures
        put_safe(s0, key, data, obj, n),
{
    let ev = choose|ev: PutEventView| #[trigger]
        put_carried_out(key, m, n.store, ev) && (n.state, n.action) == m.state.step(ev);
    let s = m.store;
    let t = n.store;
    let e = put_entry(m.state, key);
    if !(ev is Failed || ev is Full) {
        match m.state.phase {
            PutPhase::Inline => {
                store::put_inline_then_get(s, key, data);
                assert forall|k: Seq<u8>| k != key implies #[trigger] t.object(k) == s0.object(
                    k,
                ) by {
                    assert(s.object(k) == s0.object(k));
                }
            },
            PutPhase::Write | PutPhase::Rewrite => {
                assert(e.fits());
                store::lemma_append_keeps(s, m.active, e);
                store::lemma_row_ok_new(s, m.active, e, obj);
                assert(n.action->Index_0 == s.entry_at_end(m.active, e, obj));
                assert forall|k: Seq<u8>| #[trigger] t.object(k) == s0.object(k) by {
                    assert(t.object(k) == s.object(k));
                    assert(s.object(k) == s0.object(k));
                }
            },
            PutPhase::Index => {
                lemma_indexed(s0, s, key, m.action->Index_0, data, obj);
            },
            _ => {},
        }
    }
}

proof fn lemma_put(
    s0: store::Store,
    key: Seq<u8>,
    data: Seq<u8>,
    obj: Option<u64>,
    cfg: engine::EngineConfig,
    run: Seq<PutMoment>,
    i: int,
)
    requires
        s0.inv(),
        is_put(s0, key, data, obj, cfg, run),
        0 <= i < run.len(),
    ensures
        put_safe(s0, key, data, obj, run[i]),
    decreases i,
{
    if i > 0 {
        lemma_put(s0, key, data, obj, cfg, run, i - 1);
        assert(put_follows(key, run[i - 1], run[i]));
        lemma_put_step(s0, key, data, obj, run[i - 1], run[i]);
    }
}

/// A put takes effect when it ends well and not before: until then, and where it fails or
/// is refused, every key keeps its body.  At every moment the rows point at intact records.
pub proof fn puts_take_effect_at_once(
    s0: store::Store,
    key: Seq<u8>,
    data: Seq<u8>,
    obj: Option<u64>,
    cfg: engine::EngineConfig,
    run: Seq<PutMoment>,
    i: int,
)
    requires
        s0.inv(),
        is_put(s0, key, data, obj, cfg, run),
        0 <= i < run.len(),
    ensures
        run[i].store.inv(),
        run[i].action == PutActionView::Finish(Ok(())) ==> is_put_in(
            s0,
            run[i].store,
            key,
            data,
            obj,
        ),
        run[i].action != PutActionView::Finish(Ok(())) ==> forall|k: Seq<u8>| #[trigger]
            run[i].store.object(k) == s0.object(k),
{
    lemma_put(s0, key, data, obj, cfg, run, i);
}

/// A put writes its record at most twice, and the second time only after ballast was given
/// up.
pub proof fn writes_are_repeated_once(v: PutView, ev: PutEventView)
    requires
        v.step(ev).1 is Append,
    ensures
        v.phase is Release && ev == PutEventView::Released(true),
        v.step(ev).0.phase is Rewrite,
        forall|e: PutEventView| !(#[trigger] v.step(ev).0.step(e).1 is Append),
{
}

/// A read of a key returns its body, from a shard in which the rows point at intact
/// records: the lookup gives the body or the address of its record, and the record gives
/// the body.
pub proof fn reads_return_the_body(s: store::Store, key: Seq<u8>)
    requires
        s.inv(),
        s.object(key) is Some,
    ensures
        ({
            let first = engine::get_after_lookup(
                engine::GetState { prev: None, attempts: 0 },
                s.lookup(key),
            );
            let at = (first->Read_0).addr;
            let record = s.files[at.seg_id].subrange(at.offset as int, at.offset + at.total());
            ||| first == engine::GetView::Done(Ok(s.object(key)->0))
            ||| first is Read && engine::get_after_read(
                engine::GetState { prev: None, attempts: 0 },
                key,
                first->Read_0,
                Some(record),
            ).1 == engine::GetView::Done(Ok(s.object(key)->0))
        }),
{
    if let Ok(index::LookupView::Addr(x)) = s.lookup(key) {
        let f = s.files[x.addr.seg_id];
        let b = f.skip(x.addr.offset as int);
        let record = f.subrange(x.addr.offset as int, x.addr.offset + x.addr.total());
        let end = x.addr.total() as int;
        assert(store::row_ok(s.files, key, x));
        assert(record.subrange(20, end) =~= b.subrange(20, end));
        assert(record.subrange(20 + x.addr.key_len, end) =~= store::stored_bytes(s.files, x));
    }
}

/// A put of a short body that is no piece goes into the inline table whole; any other that a
/// record can hold is appended, and what is appended opens to the body, at any length.
pub proof fn puts_begin_with_the_body(
    key: &[u8],
    data: &[u8],
    obj: Option<u64>,
    inline_min: u32,
    compress_zstd: bool,
    compress_min: u32,
    ballast_bytes: u64,
    r: (PutPass, PutAction),
)
    requires
        call_ensures(
            PutPass::begin,
            (key, data, obj, inline_min, compress_zstd, compress_min, ballast_bytes),
            r,
        ),
    ensures
        r.0.obj == obj && r.0.ballast == (ballast_bytes > 0),
        obj is None && data@.len() < inline_min ==> r.1 is Inline && r.0.phase is Inline
            && r.0.stored@ == data@,
        (obj is Some || data@.len() >= inline_min) && key@.len() < 0x1_0000 && data@.len()
            < 0x1_0000_0000 ==> {
            &&& r.1 is Append && r.0.phase is Write
            &&& r.0.logical_len == data@.len()
            &&& !compress_zstd || data@.len() < compress_min ==> r.0.stored@ == data@
                && r.0.flags == 0
            &&& index::opened_body(r.0.stored@, r.0.flags, r.0.logical_len) == Ok::<
                Seq<u8>,
                domain::ErrorView,
            >(data@)
        },
        (obj is Some || data@.len() >= inline_min) && (key@.len() >= 0x1_0000 || data@.len()
            >= 0x1_0000_0000) ==> (r.1 matches PutAction::Finish(Err(_))),
{
    assert(r.0@.phase == r.0.phase && r.0@.stored == r.0.stored@);
    assert(r.1@ is Inline || r.1@ is Append || r.1@ is Finish);
    if (obj is Some || data@.len() >= inline_min) && key@.len() < 0x1_0000 && data@.len()
        < 0x1_0000_0000 {
        index::body_round_trip(r.0.stored@, r.0.flags, data@);
    }
}

/// A record that was written is entered in the index with its place, its checksum, and the
/// lengths and flags of the put; the put is done when the index is.
pub proof fn written_records_are_entered(v: PutView, a: RecordAddr, crc: u32)
    requires
        v.phase is Write || v.phase is Rewrite,
    ensures
        ({
            let (w, action) = v.step(PutEventView::Written(a, crc));
            &&& (action matches PutActionView::Index(e) && e.addr == a && e.crc == crc
                && e.logical_len == v.logical_len && e.flags == v.flags && e.obj_logical == v.obj)
            &&& w.step(PutEventView::Did).1 == PutActionView::Finish(Ok(()))
        }),
{
}

/// A full disk gives up its ballast and the write is repeated, once; without ballast, or where
/// it is gone already, the put fails with the first error.
pub proof fn full_disks_give_up_ballast(v: PutView, e: domain::ErrorView, f: domain::ErrorView)
    requires
        v.phase is Write,
    ensures
        !v.ballast ==> v.step(PutEventView::Full(e)).1 == PutActionView::Finish(Err(e)),
        v.ballast ==> ({
            let (w, a) = v.step(PutEventView::Full(e));
            &&& a is Release
            &&& w.step(PutEventView::Released(false)).1 == PutActionView::Finish(Err(e))
            &&& w.step(PutEventView::Released(true)).1 is Append
            &&& w.step(PutEventView::Released(true)).0.step(PutEventView::Full(f)).1
                == PutActionView::Finish(Err(f))
            &&& w.stored == v.stored && w.logical_len == v.logical_len && w.flags == v.flags
                && w.obj == v.obj
        }),
        v.step(PutEventView::Failed(e)).1 == PutActionView::Finish(Err(e)),
{
}

} // verus!
