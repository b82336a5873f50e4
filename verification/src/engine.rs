//! Decisions of the shard engine: reads, garbage collection, listing,
//! structure checks, eviction, scrubbing and ballast.
use vstd::prelude::*;
use vstd::string::*;
use crate::bytes;
use crate::domain::{BlockKey, DomainError, DomainResult, GcReport, ScrubStep, StructureReport};
use crate::domain;
use crate::index::{open_body, AddrEntry, Lookup};
use crate::index;
use crate::segment::{crc_mismatch_text, read_record, ReadFault};
use crate::segment;
use crate::text;

verus! {

/// Settings of one shard.
#[derive(Debug)]
pub struct EngineConfig {
    /// directory of the bodies
    pub data_path: String,
    /// directory of the index; the data directory by default
    pub index_path: Option<String>,
    pub segment_max_size: u64,
    /// smaller bodies go into the index
    pub inline_min: u32,
    /// sync after so many records
    pub fsync_items: u32,
    pub compress_zstd: bool,
    /// smaller bodies are not compressed
    pub compress_min: u32,
    /// size of the file that is given up when the disk is full; zero for none
    pub ballast_bytes: u64,
    /// spare directory for segments
    pub failover_path: Option<String>,
    /// drop written bytes from the page cache
    pub fadvise_dontneed: bool,
}

impl Default for EngineConfig {
    fn default() -> (r: Self)
        ensures
            r.data_path@ == "."@,
            r.index_path is None,
            r.segment_max_size == 2 * 1024 * 1024 * 1024,
            r.inline_min == 4096,
            r.fsync_items == 256,
            !r.compress_zstd,
            r.compress_min == 512,
            r.ballast_bytes == 0,
            r.failover_path is None,
            !r.fadvise_dontneed,
    {
        EngineConfig {
            data_path: ".".to_owned(),
            index_path: None,
            segment_max_size: 2147483648,
            inline_min: 4096,
            fsync_items: 256,
            compress_zstd: false,
            compress_min: 512,
            ballast_bytes: 0,
            failover_path: None,
            fadvise_dontneed: false,
        }
    }
}

/// A read in progress: the row that could not be read, and how many attempts
/// were made.
#[derive(Clone, Copy, Debug, PartialEq, Eq, Structural)]
pub struct GetState {
    pub prev: Option<AddrEntry>,
    pub attempts: u8,
}

impl GetState {
    pub fn new() -> (r: Self)
        ensures
            r.prev is None,
            r.attempts == 0,
    {
        GetState { prev: None, attempts: 0 }
    }
}

/// What a read does next.
#[derive(Debug)]
pub enum GetAction {
    /// look the key up
    Lookup,
    /// read the record at this address
    Read(AddrEntry),
    Done(DomainResult<Vec<u8>>),
}

/// [`GetAction`] by value.
pub ghost enum GetView {
    Lookup,
    Read(AddrEntry),
    Done(Result<Seq<u8>, domain::ErrorView>),
}

impl View for GetAction {
    type V = GetView;

    open spec fn view(&self) -> GetView {
        match *self {
            GetAction::Lookup => GetView::Lookup,
            GetAction::Read(e) => GetView::Read(e),
            GetAction::Done(r) => GetView::Done(domain::bytes_result(r)),
        }
    }
}

/// The error of a record that stays unreadable.
pub open spec fn unreadable() -> domain::ErrorView {
    domain::ErrorView::Io("record unreadable after re-lookup"@)
}

/// After a lookup: an inline body is the answer, an address is read unless it
/// is the one that just failed.
pub open spec fn get_after_lookup(
    s: GetState,
    l: Result<index::LookupView, domain::ErrorView>,
) -> GetView {
    match l {
        Err(e) => GetView::Done(Err(e)),
        Ok(index::LookupView::Inline(v)) => GetView::Done(Ok(v)),
        Ok(index::LookupView::Missing) => GetView::Done(Err(domain::ErrorView::NotFound)),
        Ok(index::LookupView::Addr(e)) => if s.prev == Some(e) {
            GetView::Done(Err(unreadable()))
        } else {
            GetView::Read(e)
        },
    }
}

pub fn get_on_lookup(s: &GetState, l: DomainResult<Lookup>) -> (r: GetAction)
    ensures
        r@ == get_after_lookup(
            *s,
            match l {
                Ok(x) => Ok::<index::LookupView, domain::ErrorView>(x@),
                Err(e) => Err(e@),
            },
        ),
{
    match l {
        Err(e) => GetAction::Done(Err(e)),
        Ok(Lookup::Inline(v)) => GetAction::Done(Ok(v)),
        Ok(Lookup::Missing) => GetAction::Done(Err(DomainError::NotFound)),
        Ok(Lookup::Addr(e)) => {
            let again = match s.prev {
                Some(p) => p == e,
                None => false,
            };
            if again {
                GetAction::Done(
                    Err(DomainError::Io("record unreadable after re-lookup".to_owned())),
                )
            } else {
                GetAction::Read(e)
            }
        },
    }
}

/// What the bytes at an entry's address amount to: a body, an error, or nothing
/// when they could not be read.
pub open spec fn read_outcome(key: Seq<u8>, e: AddrEntry, buf: Option<Seq<u8>>) -> Option<
    Result<Seq<u8>, domain::ErrorView>,
> {
    match buf {
        None => None,
        Some(b) => if b.len() < e.addr.total() {
            None
        } else {
            let end = e.addr.total() as int;
            if segment::crc32(b.subrange(20, end)) == e.crc {
                Some(
                    index::opened_body(b.subrange(20 + e.addr.key_len, end), e.flags, e.logical_len),
                )
            } else {
                Some(
                    Err(
                        domain::ErrorView::Corrupt(
                            text::lossy_text(key) + ": "@ + "segment record crc mismatch (bitrot?)"@,
                        ),
                    ),
                )
            }
        },
    }
}

/// After a read: a record that could not be read at all is looked up once more,
/// since a collection may have moved it.
pub open spec fn get_after_read(s: GetState, key: Seq<u8>, e: AddrEntry, buf: Option<Seq<u8>>) -> (
    GetState,
    GetView,
) {
    match read_outcome(key, e, buf) {
        Some(r) => (s, GetView::Done(r)),
        None => {
            let t = GetState { prev: Some(e), attempts: (s.attempts + 1) as u8 };
            (
                t,
                if t.attempts >= 2 {
                    GetView::Done(Err(unreadable()))
                } else {
                    GetView::Lookup
                },
            )
        },
    }
}

pub fn get_on_read(s: &mut GetState, key: &BlockKey, e: &AddrEntry, buf: Option<Vec<u8>>) -> (r:
    GetAction)
    requires
        old(s).attempts < 2,
    ensures
        (*final(s), r@) == get_after_read(*old(s), key@, *e, index::row_view(buf)),
{
    let got: Result<Vec<u8>, ReadFault> = match &buf {
        Some(b) => read_record(b.as_slice(), &e.addr, e.crc),
        None => Err(ReadFault::Short),
    };
    match got {
        Ok(stored) => GetAction::Done(open_body(stored, e.flags, e.logical_len)),
        Err(ReadFault::CrcMismatch) => {
            let mut t = text::lossy(key.as_bytes());
            t.append(": ");
            t.append(crc_mismatch_text().as_str());
            GetAction::Done(Err(DomainError::Corrupt(t)))
        },
        Err(ReadFault::Short) => {
            s.prev = Some(*e);
            s.attempts = s.attempts + 1;
            if s.attempts >= 2 {
                GetAction::Done(
                    Err(DomainError::Io("record unreadable after re-lookup".to_owned())),
                )
            } else {
                GetAction::Lookup
            }
        },
    }
}

/// A read tries at most two addresses.
pub proof fn get_ends(s: GetState, key: Seq<u8>, e: AddrEntry, buf: Option<Seq<u8>>)
    requires
        s.attempts < 2,
    ensures
        get_after_read(s, key, e, buf).1 is Done || get_after_read(s, key, e, buf).0.attempts
            == s.attempts + 1 == 1,
{
}

/// Whether a key is there: in either table.
pub fn has(inline: bool, addr: bool) -> (r: bool)
    ensures
        r == (inline || addr),
{
    inline || addr
}

/// The number in a segment's file name.
pub open spec fn segment_of_name(name: Seq<char>) -> Option<nat> {
    if bytes::has_prefix(name, "seg."@) && text::suffixed(name.skip(4), ".dat"@) {
        text::parsed_uint(name.subrange(4, name.len() - 4), u32::MAX as nat)
    } else {
        None
    }
}

pub fn parse_segment_name(name: &str) -> (r: Option<u32>)
    ensures
        match r {
            Some(id) => segment_of_name(name@) == Some(id as nat),
            None => segment_of_name(name@) is None,
        },
{
    proof {
        reveal_strlit("seg.");
        reveal_strlit(".dat");
    }
    let c = text::chars(name);
    if !text::has_prefix(c.as_slice(), text::chars("seg.").as_slice()) {
        return None;
    }
    let rest = text::slice_of(c.as_slice(), 4, c.len());
    assert(rest@ =~= name@.skip(4));
    if !text::has_suffix(rest.as_slice(), text::chars(".dat").as_slice()) {
        return None;
    }
    let mid = text::slice_of(c.as_slice(), 4, c.len() - 4);
    match text::parse_uint(mid.as_slice(), u32::MAX as u64) {
        Some(v) => Some(v as u32),
        None => None,
    }
}

/// The sealed segments among the files of a directory: those with a segment's
/// name, except the active one.
pub open spec fn sealed_of(files: Seq<(Seq<char>, u64)>, active: u32) -> Seq<(u32, u64)>
    decreases files.len(),
{
    if files.len() == 0 {
        Seq::empty()
    } else {
        let rest = sealed_of(files.drop_last(), active);
        let f = files.last();
        match segment_of_name(f.0) {
            Some(id) => if id != active {
                rest.push((id as u32, f.1))
            } else {
                rest
            },
            None => rest,
        }
    }
}

/// File names taken by value.
pub open spec fn file_views(v: Seq<(String, u64)>) -> Seq<(Seq<char>, u64)> {
    Seq::new(v.len(), |i: int| (v[i].0@, v[i].1))
}

pub fn sealed_segments(files: &Vec<(String, u64)>, active: u32) -> (r: Vec<(u32, u64)>)
    ensures
        r@ == sealed_of(file_views(files@), active),
{
    let ghost fv = file_views(files@);
    let mut out: Vec<(u32, u64)> = Vec::new();
    let mut i: usize = 0;
    while i < files.len()
        invariant
            i <= files@.len(),
            fv == file_views(files@),
            out@ == sealed_of(fv.take(i as int), active),
        decreases files@.len() - i,
    {
        assert(fv.take(i + 1).drop_last() =~= fv.take(i as int));
        assert(fv.take(i + 1).last() == (files@[i as int].0@, files@[i as int].1));
        match parse_segment_name(files[i].0.as_str()) {
            Some(id) => {
                if id != active {
                    out.push((id, files[i].1));
                }
            },
            None => {},
        }
        i = i + 1;
    }
    assert(fv.take(files@.len() as int) =~= fv);
    out
}

/// Whether a segment is the first with the most garbage; none where there is no garbage at
/// all.
pub open spec fn holds_most(discards: Seq<u64>, pick: Option<usize>) -> bool {
    match pick {
        Some(i) => {
            &&& i < discards.len()
            &&& discards[i as int] > 0
            &&& forall|j: int| 0 <= j < discards.len() ==> discards[j] <= discards[i as int]
            &&& forall|j: int| 0 <= j < i ==> discards[j] < discards[i as int]
        },
        None => forall|j: int| 0 <= j < discards.len() ==> discards[j] == 0,
    }
}

/// The segment to collect.
pub fn gc_victim(discards: &Vec<u64>) -> (r: Option<usize>)
    ensures
        holds_most(discards@, r),
{
    let mut best: Option<usize> = None;
    let mut i: usize = 0;
    while i < discards.len()
        invariant
            i <= discards@.len(),
            best is None <==> forall|j: int| 0 <= j < i ==> discards@[j] == 0,
            best matches Some(b) ==> {
                &&& b < i
                &&& discards@[b as int] > 0
                &&& forall|j: int| 0 <= j < i ==> discards@[j] <= discards@[b as int]
                &&& forall|j: int| 0 <= j < b ==> discards@[j] < discards@[b as int]
            },
        decreases discards@.len() - i,
    {
        let d: u64 = discards[i];
        if d > 0 {
            match best {
                Some(b) => {
                    if d > discards[b] {
                        best = Some(i);
                    }
                },
                None => {
                    best = Some(i);
                },
            }
        }
        i = i + 1;
    }
    best
}

/// The used bytes after a segment of `size` bytes went away.
pub fn used_after(used: u64, size: u64) -> (r: u64)
    ensures
        r == (if size <= used {
            used - size
        } else {
            0
        }),
{
    if size <= used {
        used - size
    } else {
        0
    }
}

/// How many rows point into a segment.
pub open spec fn refs_to(rows: Seq<Seq<u8>>, seg: u32) -> nat
    decreases rows.len(),
{
    if rows.len() == 0 {
        0
    } else {
        refs_to(rows.drop_last(), seg) + match index::decoded_addr(rows.last()) {
            Some(e) => if e.addr.seg_id == seg {
                1nat
            } else {
                0nat
            },
            None => 0nat,
        }
    }
}

/// Each row taken by its view.
pub open spec fn row_views(v: Seq<Vec<u8>>) -> Seq<Seq<u8>> {
    Seq::new(v.len(), |i: int| v[i]@)
}

/// Segment numbers in strictly rising order.
pub open spec fn rising(v: Seq<(u32, u64)>) -> bool {
    forall|i: int, j: int| 0 <= i < j < v.len() ==> (#[trigger] v[i]).0 < (#[trigger] v[j]).0
}

/// The entry for a segment in a table of counts; zero when there is none.
pub open spec fn count_in(v: Seq<(u32, u64)>, seg: u32) -> nat
    decreases v.len(),
{
    if v.len() == 0 {
        0
    } else if v.last().0 == seg {
        v.last().1 as nat
    } else {
        count_in(v.drop_last(), seg)
    }
}

/// Whether a segment is in a table.
pub open spec fn listed(v: Seq<(u32, u64)>, seg: u32) -> bool {
    exists|i: int| 0 <= i < v.len() && (#[trigger] v[i]).0 == seg
}

proof fn lemma_count_at(v: Seq<(u32, u64)>, i: int)
    requires
        rising(v),
        0 <= i < v.len(),
    ensures
        count_in(v, v[i].0) == v[i].1,
    decreases v.len(),
{
    if i < v.len() - 1 {
        let p = v.drop_last();
        assert(rising(p)) by {
            assert forall|a: int, b: int| 0 <= a < b < p.len() implies (#[trigger] p[a]).0 < (
            #[trigger] p[b]).0 by {
                assert(p[a] == v[a] && p[b] == v[b]);
            }
        }
        assert(v[i].0 < v[v.len() - 1].0);
        lemma_count_at(p, i);
    }
}

proof fn lemma_count_absent(v: Seq<(u32, u64)>, seg: u32)
    requires
        !listed(v, seg),
    ensures
        count_in(v, seg) == 0,
    decreases v.len(),
{
    if v.len() > 0 {
        let p = v.drop_last();
        assert(!listed(p, seg)) by {
            if listed(p, seg) {
                let i = choose|i: int| 0 <= i < p.len() && (#[trigger] p[i]).0 == seg;
                assert(v[i].0 == seg);
            }
        }
        assert(v[v.len() - 1].0 != seg);
        lemma_count_absent(p, seg);
    }
}

/// One more reference to a segment.
fn count_ref(table: &mut Vec<(u32, u64)>, seg: u32)
    requires
        rising(old(table)@),
        count_in(old(table)@, seg) < u64::MAX,
        forall|i: int| 0 <= i < old(table)@.len() ==> (#[trigger] old(table)@[i]).1 > 0,
    ensures
        rising(final(table)@),
        forall|i: int| 0 <= i < final(table)@.len() ==> (#[trigger] final(table)@[i]).1 > 0,
        forall|s: u32|
            #![trigger count_in(final(table)@, s)]
            count_in(final(table)@, s) == count_in(old(table)@, s) + (if s == seg {
                1int
            } else {
                0
            }),
{
    let ghost v = table@;
    let mut i: usize = 0;
    while i < table.len() && table[i].0 < seg
        invariant
            table@ == v,
            rising(v),
            i <= v.len(),
            forall|j: int| 0 <= j < i ==> (#[trigger] v[j]).0 < seg,
        decreases v.len() - i,
    {
        i = i + 1;
    }
    if i < table.len() && table[i].0 == seg {
        proof {
            lemma_count_at(v, i as int);
        }
        let n: u64 = table[i].1;
        table[i] = (seg, n + 1);
        assert forall|s: u32| #[trigger] count_in(table@, s) == count_in(v, s) + (if s == seg {
            1int
        } else {
            0
        }) by {
            lemma_count_update(v, i as int, s);
        }
    } else {
        proof {
            assert(!listed(v, seg)) by {
                if listed(v, seg) {
                    let j = choose|j: int| 0 <= j < v.len() && (#[trigger] v[j]).0 == seg;
                    assert(i < v.len());
                    assert(v[i as int].0 > seg);
                    assert(j < i || j == i || v[i as int].0 < v[j].0);
                }
            }
            lemma_count_absent(v, seg);
        }
        table.insert(i, (seg, 1));
        assert(table@ =~= v.insert(i as int, (seg, 1u64)));
        assert forall|s: u32| #[trigger] count_in(table@, s) == count_in(v, s) + (if s == seg {
            1int
        } else {
            0
        }) by {
            lemma_count_insert(v, i as int, seg, s);
        }
        assert forall|a: int, b: int| 0 <= a < b < table@.len() implies (#[trigger] table@[a]).0 < (
        #[trigger] table@[b]).0 by {
            if a == i {
                assert(table@[b] == v[b - 1]);
                assert(v[i as int].0 > seg);
                assert(b - 1 == i || v[i as int].0 < v[b - 1].0);
            } else if b == i {
                assert(table@[a] == v[a]);
            }
        }
    }
}

proof fn lemma_count_update(v: Seq<(u32, u64)>, i: int, s: u32)
    requires
        rising(v),
        0 <= i < v.len(),
        v[i].1 < u64::MAX,
    ensures
        count_in(v.update(i, (v[i].0, (v[i].1 + 1) as u64)), s) == count_in(v, s) + (if s
            == v[i].0 {
            1int
        } else {
            0
        }),
    decreases v.len(),
{
    let w = v.update(i, (v[i].0, (v[i].1 + 1) as u64));
    let p = v.drop_last();
    if i == v.len() - 1 {
        assert(w.drop_last() =~= p);
    } else {
        assert(rising(p)) by {
            assert forall|a: int, b: int| 0 <= a < b < p.len() implies (#[trigger] p[a]).0 < (
            #[trigger] p[b]).0 by {
                assert(p[a] == v[a] && p[b] == v[b]);
            }
        }
        assert(w.drop_last() =~= p.update(i, (p[i].0, (p[i].1 + 1) as u64)));
        assert(v[i].0 < v[v.len() - 1].0);
        lemma_count_update(p, i, s);
    }
}

proof fn lemma_count_insert(v: Seq<(u32, u64)>, i: int, seg: u32, s: u32)
    requires
        0 <= i <= v.len(),
        !listed(v, seg),
    ensures
        count_in(v.insert(i, (seg, 1u64)), s) == count_in(v, s) + (if s == seg {
            1int
        } else {
            0
        }),
    decreases v.len(),
{
    let w = v.insert(i, (seg, 1u64));
    lemma_count_absent(v, seg);
    if i == v.len() {
        assert(w.drop_last() =~= v);
    } else {
        let p = v.drop_last();
        assert(!listed(p, seg)) by {
            if listed(p, seg) {
                let j = choose|j: int| 0 <= j < p.len() && (#[trigger] p[j]).0 == seg;
                assert(v[j].0 == seg);
            }
        }
        assert(v[v.len() - 1].0 != seg);
        assert(w.drop_last() =~= p.insert(i, (seg, 1u64)));
        assert(w.last() == v.last());
        lemma_count_insert(p, i, seg, s);
    }
}

proof fn lemma_refs_bound(rows: Seq<Seq<u8>>, seg: u32)
    ensures
        refs_to(rows, seg) <= rows.len(),
    decreases rows.len(),
{
    if rows.len() > 0 {
        lemma_refs_bound(rows.drop_last(), seg);
    }
}

/// The segments the address rows point into, in rising order, with the number
/// of rows each.
pub fn referenced_segments(rows: &Vec<Vec<u8>>) -> (r: Vec<(u32, u64)>)
    ensures
        rising(r@),
        forall|s: u32|
            #![trigger count_in(r@, s)]
            count_in(r@, s) == refs_to(row_views(rows@), s),
        forall|i: int| 0 <= i < r@.len() ==> (#[trigger] r@[i]).1 > 0,
{
    let ghost rv = row_views(rows@);
    let mut out: Vec<(u32, u64)> = Vec::new();
    let total: usize = rows.len();
    let mut i: usize = 0;
    assert(rv.take(0) =~= Seq::empty());
    while i < total
        invariant
            total == rows@.len(),
            i <= total,
            rv == row_views(rows@),
            rising(out@),
            forall|s: u32|
                #![trigger count_in(out@, s)]
                count_in(out@, s) == refs_to(rv.take(i as int), s),
            forall|a: int| 0 <= a < out@.len() ==> (#[trigger] out@[a]).1 > 0,
        decreases total - i,
    {
        let ghost before = out@;
        assert(rv.take(i + 1).drop_last() =~= rv.take(i as int));
        assert(rv.take(i + 1).last() == rows@[i as int]@);
        match index::decode_addr(rows[i].as_slice()) {
            Some(e) => {
                proof {
                    lemma_refs_bound(rv.take(i as int), e.addr.seg_id);
                    assert(count_in(out@, e.addr.seg_id) == refs_to(
                        rv.take(i as int),
                        e.addr.seg_id,
                    ));
                }
                count_ref(&mut out, e.addr.seg_id);
                assert forall|s: u32| #[trigger] count_in(out@, s) == refs_to(
                    rv.take(i + 1),
                    s,
                ) by {
                    assert(count_in(before, s) == refs_to(rv.take(i as int), s));
                }
            },
            None => {
                assert forall|s: u32| #[trigger] count_in(out@, s) == refs_to(
                    rv.take(i + 1),
                    s,
                ) by {
                    assert(count_in(before, s) == refs_to(rv.take(i as int), s));
                }
            },
        }
        i = i + 1;
    }
    assert(rv.take(total as int) =~= rv);
    out
}

/// Whether a segment's file is there.
pub open spec fn on_disk(sealed: Seq<(u32, u64)>, active: u32, seg: u32) -> bool {
    seg == active || listed(sealed, seg)
}

/// The referenced segments whose file is missing, in order.
pub open spec fn missing_of(refs: Seq<(u32, u64)>, sealed: Seq<(u32, u64)>, active: u32) -> Seq<u32>
    decreases refs.len(),
{
    if refs.len() == 0 {
        Seq::empty()
    } else {
        let rest = missing_of(refs.drop_last(), sealed, active);
        if on_disk(sealed, active, refs.last().0) {
            rest
        } else {
            rest.push(refs.last().0)
        }
    }
}

/// How many rows point into missing segments.
pub open spec fn at_risk(refs: Seq<(u32, u64)>, sealed: Seq<(u32, u64)>, active: u32) -> nat
    decreases refs.len(),
{
    if refs.len() == 0 {
        0
    } else {
        at_risk(refs.drop_last(), sealed, active) + if on_disk(sealed, active, refs.last().0) {
            0nat
        } else {
            refs.last().1 as nat
        }
    }
}

/// Numbers in strictly rising order.
pub open spec fn ids_rise(v: Seq<u32>) -> bool {
    forall|i: int, j: int| 0 <= i < j < v.len() ==> v[i] < v[j]
}

pub(crate) fn is_listed(v: &Vec<(u32, u64)>, seg: u32) -> (r: bool)
    ensures
        r == listed(v@, seg),
{
    let mut i: usize = 0;
    while i < v.len()
        invariant
            i <= v@.len(),
            forall|j: int| 0 <= j < i ==> (#[trigger] v@[j]).0 != seg,
        decreases v@.len() - i,
    {
        if v[i].0 == seg {
            assert(v@[i as int].0 == seg);
            return true;
        }
        i = i + 1;
    }
    false
}

fn insert_id(ids: &mut Vec<u32>, id: u32)
    requires
        ids_rise(old(ids)@),
    ensures
        ids_rise(final(ids)@),
        forall|x: u32| #[trigger]
            final(ids)@.contains(x) <==> old(ids)@.contains(x) || x == id,
{
    let ghost v = ids@;
    let mut i: usize = 0;
    while i < ids.len() && ids[i] < id
        invariant
            ids@ == v,
            i <= v.len(),
            forall|j: int| 0 <= j < i ==> v[j] < id,
        decreases v.len() - i,
    {
        i = i + 1;
    }
    if i < ids.len() && ids[i] == id {
        assert(v.contains(id)) by {
            assert(v[i as int] == id);
        }
        return;
    }
    ids.insert(i, id);
    proof {
        let w = ids@;
        assert(w =~= v.insert(i as int, id));
        assert forall|a: int, b: int| 0 <= a < b < w.len() implies w[a] < w[b] by {
            if a == i {
                assert(w[b] == v[b - 1]);
                assert(v[i as int] > id);
            } else if b == i {
                assert(w[a] == v[a]);
            }
        }
        assert forall|x: u32| #[trigger] w.contains(x) <==> v.contains(x) || x == id by {
            if w.contains(x) && x != id {
                let a = choose|a: int| 0 <= a < w.len() && w[a] == x;
                if a < i {
                    assert(v[a] == x);
                } else {
                    assert(v[a - 1] == x);
                }
            }
            if v.contains(x) {
                let a = choose|a: int| 0 <= a < v.len() && v[a] == x;
                if a < i {
                    assert(w[a] == x);
                } else {
                    assert(w[a + 1] == x);
                }
            }
            if x == id {
                assert(w[i as int] == x);
            }
        }
    }
}

proof fn lemma_risk_prefix(refs: Seq<(u32, u64)>, n: int, sealed: Seq<(u32, u64)>, active: u32)
    requires
        0 <= n <= refs.len(),
    ensures
        at_risk(refs.take(n), sealed, active) <= at_risk(refs, sealed, active),
    decreases refs.len() - n,
{
    if n == refs.len() {
        assert(refs.take(n) =~= refs);
    } else {
        assert(refs.take(n + 1).drop_last() =~= refs.take(n));
        lemma_risk_prefix(refs, n + 1, sealed, active);
    }
}

/// The sealed segments nothing refers to, in rising order.
pub fn orphan_segments(refs: &Vec<(u32, u64)>, sealed: &Vec<(u32, u64)>, active: u32) -> (r: Vec<
    u32,
>)
    ensures
        ids_rise(r@),
        forall|s: u32| #[trigger]
            r@.contains(s) <==> listed(sealed@, s) && s != active && !listed(refs@, s),
{
    let mut out: Vec<u32> = Vec::new();
    let mut i: usize = 0;
    while i < sealed.len()
        invariant
            i <= sealed@.len(),
            ids_rise(out@),
            forall|s: u32| #[trigger]
                out@.contains(s) <==> listed(sealed@.take(i as int), s) && s != active && !listed(
                    refs@,
                    s,
                ),
        decreases sealed@.len() - i,
    {
        let seg: u32 = sealed[i].0;
        let ghost before = out@;
        if seg != active && !is_listed(refs, seg) {
            insert_id(&mut out, seg);
        }
        assert forall|s: u32| #[trigger] out@.contains(s) <==> listed(sealed@.take(i + 1), s) && s
            != active && !listed(refs@, s) by {
            assert(before.contains(s) <==> listed(sealed@.take(i as int), s) && s != active
                && !listed(refs@, s));
            lemma_listed_step(sealed@, i as int, s);
        }
        i = i + 1;
    }
    assert(sealed@.take(sealed@.len() as int) =~= sealed@);
    out
}

proof fn lemma_listed_step(v: Seq<(u32, u64)>, i: int, s: u32)
    requires
        0 <= i < v.len(),
    ensures
        listed(v.take(i + 1), s) <==> listed(v.take(i), s) || v[i].0 == s,
{
    if listed(v.take(i + 1), s) {
        let j = choose|j: int| 0 <= j < v.take(i + 1).len() && (#[trigger] v.take(i + 1)[j]).0 == s;
        if j < i {
            assert(v.take(i)[j].0 == s);
        }
    }
    if listed(v.take(i), s) {
        let j = choose|j: int| 0 <= j < v.take(i).len() && (#[trigger] v.take(i)[j]).0 == s;
        assert(v.take(i + 1)[j].0 == s);
    }
    if v[i].0 == s {
        assert(v.take(i + 1)[i].0 == s);
    }
}

/// Compares the index with the files: referenced segments without a file are
/// lost, files without a reference are garbage.
pub fn verify_structure(refs: &Vec<(u32, u64)>, sealed: &Vec<(u32, u64)>, active: u32) -> (r:
    StructureReport)
    requires
        at_risk(refs@, sealed@, active) <= u64::MAX,
    ensures
        r.segments_referenced == refs@.len(),
        r.segments_missing@ == missing_of(refs@, sealed@, active),
        r.keys_at_risk == at_risk(refs@, sealed@, active),
        ids_rise(r.orphan_segments@),
        forall|s: u32| #[trigger]
            r.orphan_segments@.contains(s) <==> listed(sealed@, s) && s != active && !listed(
                refs@,
                s,
            ),
{
    let mut missing: Vec<u32> = Vec::new();
    let mut risk: u64 = 0;
    let mut i: usize = 0;
    while i < refs.len()
        invariant
            i <= refs@.len(),
            at_risk(refs@, sealed@, active) <= u64::MAX,
            missing@ == missing_of(refs@.take(i as int), sealed@, active),
            risk == at_risk(refs@.take(i as int), sealed@, active),
        decreases refs@.len() - i,
    {
        proof {
            assert(refs@.take(i + 1).drop_last() =~= refs@.take(i as int));
            lemma_risk_prefix(refs@, i + 1, sealed@, active);
        }
        let seg: u32 = refs[i].0;
        if seg != active && !is_listed(sealed, seg) {
            missing.push(seg);
            risk = risk + refs[i].1;
        }
        i = i + 1;
    }
    assert(refs@.take(refs@.len() as int) =~= refs@);
    StructureReport {
        segments_referenced: refs.len(),
        segments_missing: missing,
        keys_at_risk: risk,
        orphan_segments: orphan_segments(refs, sealed, active),
    }
}

/// The sum of the sizes.
pub open spec fn size_sum(v: Seq<(u32, u64)>) -> nat
    decreases v.len(),
{
    if v.len() == 0 {
        0
    } else {
        size_sum(v.drop_last()) + v.last().1 as nat
    }
}

pub(crate) proof fn lemma_size_prefix(v: Seq<(u32, u64)>, n: int)
    requires
        0 <= n <= v.len(),
    ensures
        size_sum(v.take(n)) <= size_sum(v),
    decreases v.len() - n,
{
    if n == v.len() {
        assert(v.take(n) =~= v);
    } else {
        assert(v.take(n + 1).drop_last() =~= v.take(n));
        lemma_size_prefix(v, n + 1);
    }
}

/// Bytes of data on disk: the sealed segments and the active one.
pub fn data_bytes(sealed: &Vec<(u32, u64)>, active_len: u64) -> (r: u64)
    requires
        size_sum(sealed@) + active_len <= u64::MAX,
    ensures
        r == size_sum(sealed@) + active_len,
{
    let mut sum: u64 = active_len;
    let mut i: usize = 0;
    while i < sealed.len()
        invariant
            i <= sealed@.len(),
            size_sum(sealed@) + active_len <= u64::MAX,
            sum == size_sum(sealed@.take(i as int)) + active_len,
        decreases sealed@.len() - i,
    {
        proof {
            assert(sealed@.take(i + 1).drop_last() =~= sealed@.take(i as int));
            lemma_size_prefix(sealed@, i + 1);
        }
        sum = sum + sealed[i].1;
        i = i + 1;
    }
    assert(sealed@.take(sealed@.len() as int) =~= sealed@);
    sum
}

/// The sealed segment to evict: the one with the smallest number.
pub fn oldest_segment(sealed: &Vec<(u32, u64)>) -> (r: Option<(u32, u64)>)
    ensures
        r is None <==> sealed@.len() == 0,
        r matches Some(v) ==> sealed@.contains(v) && forall|i: int|
            0 <= i < sealed@.len() ==> v.0 <= (#[trigger] sealed@[i]).0,
        // of several with that number, the first
        r matches Some(v) ==> exists|i: int|
            0 <= i < sealed@.len() && #[trigger] sealed@[i] == v && forall|j: int|
                0 <= j < i ==> v.0 < (#[trigger] sealed@[j]).0,
{
    if sealed.len() == 0 {
        return None;
    }
    let mut best: usize = 0;
    let mut i: usize = 1;
    while i < sealed.len()
        invariant
            1 <= i <= sealed@.len(),
            best < i,
            forall|j: int| 0 <= j < i ==> sealed@[best as int].0 <= (#[trigger] sealed@[j]).0,
            forall|j: int| 0 <= j < best ==> sealed@[best as int].0 < (#[trigger] sealed@[j]).0,
        decreases sealed@.len() - i,
    {
        if sealed[i].0 < sealed[best].0 {
            best = i;
        }
        i = i + 1;
    }
    let v = sealed[best];
    assert(sealed@[best as int] == v);
    Some(v)
}

/// What one verified body adds to a scrub step: a readable one is counted, a
/// vanished one is not an error, any other is corrupt.
pub fn scrub_note(step: &mut ScrubStep, key: &BlockKey, body: &DomainResult<Vec<u8>>)
    requires
        old(step).checked < u64::MAX,
        body matches Ok(d) ==> old(step).bytes + d@.len() <= u64::MAX,
    ensures
        final(step).done == old(step).done,
        final(step).last_key == old(step).last_key,
        match *body {
            Ok(d) => {
                &&& final(step).checked == old(step).checked + 1
                &&& final(step).bytes == old(step).bytes + d@.len()
                &&& final(step).corrupt@ == old(step).corrupt@
            },
            Err(DomainError::NotFound) => {
                &&& final(step).checked == old(step).checked
                &&& final(step).bytes == old(step).bytes
                &&& final(step).corrupt@ == old(step).corrupt@
            },
            Err(_) => {
                &&& final(step).checked == old(step).checked
                &&& final(step).bytes == old(step).bytes
                &&& final(step).corrupt@.len() == old(step).corrupt@.len() + 1
                &&& final(step).corrupt@.drop_last() == old(step).corrupt@
                &&& final(step).corrupt@.last()@ == key@
            },
        },
{
    match body {
        Ok(d) => {
            step.checked = step.checked + 1;
            step.bytes = step.bytes + d.len() as u64;
        },
        Err(DomainError::NotFound) => {},
        Err(_) => {
            step.corrupt.push(key.clone());
            assert(step.corrupt@.drop_last() =~= old(step).corrupt@);
        },
    }
}

/// An empty scrub step over a page of `keys`, asked for with `limit`: a short
/// page is the last one.
pub fn scrub_begin(keys: &Vec<(Vec<u8>, u64)>, limit: usize) -> (r: ScrubStep)
    ensures
        r.checked == 0,
        r.bytes == 0,
        r.corrupt@.len() == 0,
        r.done == (keys@.len() < limit),
        match r.last_key {
            Some(k) => keys@.len() > 0 && k@ == keys@.last().0@,
            None => keys@.len() == 0,
        },
{
    let n: usize = keys.len();
    let last_key: Option<BlockKey> = if n == 0 {
        None
    } else {
        let k = bytes::copy_range(keys[n - 1].0.as_slice(), 0, keys[n - 1].0.len());
        assert(k@ =~= keys@.last().0@);
        Some(BlockKey(k))
    };
    ScrubStep { checked: 0, bytes: 0, corrupt: Vec::new(), last_key, done: n < limit }
}

/// What to do about the ballast file.
#[derive(Clone, Copy, Debug, PartialEq, Eq, Structural)]
pub enum BallastPlan {
    /// switched off: remove the file
    Remove,
    /// the file is there with the right size
    Keep,
    /// too little room: remove a file of the wrong size and leave it at that
    NoRoom,
    /// remove a file of the wrong size and create the right one
    Create,
}

/// Decides about the ballast file from its wanted size, the size of the file
/// that is there, and the free space.
pub fn ensure_ballast(want: u64, there: Option<u64>, free: u64) -> (r: BallastPlan)
    ensures
        r == (if want == 0 {
            BallastPlan::Remove
        } else if there == Some(want) {
            BallastPlan::Keep
        } else if free < (if 2 * want <= u64::MAX {
            2 * want
        } else {
            u64::MAX as int
        }) {
            BallastPlan::NoRoom
        } else {
            BallastPlan::Create
        }),
{
    if want == 0 {
        return BallastPlan::Remove;
    }
    match there {
        Some(n) => {
            if n == want {
                return BallastPlan::Keep;
            }
        },
        None => {},
    }
    let twice: u64 = want.saturating_add(want);
    if free < twice {
        BallastPlan::NoRoom
    } else {
        BallastPlan::Create
    }
}

/// Where the ballast stream starts.
pub const BALLAST_SEED: u64 = 0x9E37_79B9_7F4A_7C15;

/// One step of the ballast stream.
pub open spec fn ballast_step(x: u64) -> u64 {
    let a = x ^ (x << 13);
    let b = a ^ (a >> 7);
    b ^ (b << 17)
}

/// The state of the ballast stream after `n` steps.
pub open spec fn ballast_state(x: u64, n: nat) -> u64
    decreases n,
{
    if n == 0 {
        x
    } else {
        ballast_step(ballast_state(x, (n - 1) as nat))
    }
}

/// The bytes of the first `n` steps: each state little-endian.
pub open spec fn ballast_stream(x: u64, n: nat) -> Seq<u8>
    decreases n,
{
    if n == 0 {
        Seq::empty()
    } else {
        ballast_stream(x, (n - 1) as nat) + bytes::le_bytes(ballast_state(x, n) as nat, 8)
    }
}

/// The next `words * 8` bytes of the ballast stream, which does not compress,
/// and the state behind them.
pub fn ballast_chunk(x: u64, words: usize) -> (r: (Vec<u8>, u64))
    ensures
        r.0@ == ballast_stream(x, words as nat),
        r.1 == ballast_state(x, words as nat),
{
    let mut out: Vec<u8> = Vec::new();
    let mut s: u64 = x;
    let mut i: usize = 0;
    while i < words
        invariant
            i <= words,
            s == ballast_state(x, i as nat),
            out@ == ballast_stream(x, i as nat),
        decreases words - i,
    {
        s = s ^ (s << 13);
        s = s ^ (s >> 7);
        s = s ^ (s << 17);
        assert(s == ballast_state(x, (i + 1) as nat));
        bytes::push_le(&mut out, s, 8);
        i = i + 1;
    }
    (out, s)
}

/// Ballast is configured but not on disk: the disk is short of space.
pub fn ballast_released(ballast_bytes: u64, present: bool) -> (r: bool)
    ensures
        r == (ballast_bytes > 0 && !present),
{
    ballast_bytes > 0 && !present
}

/// The bytes that a number of file system blocks takes.
pub fn fs_bytes(block_size: u64, blocks: u64) -> (r: u64)
    requires
        block_size * blocks <= u64::MAX,
    ensures
        r == block_size * blocks,
{
    blocks * block_size
}

/// Whether a segment is looked for in the spare directory: only where the main one lacks
/// it and the spare one has it.
pub fn seg_dir_of(in_main: bool, in_spare: Option<bool>) -> (spare: bool)
    ensures
        spare == (!in_main && in_spare == Some(true)),
{
    match in_spare {
        Some(held) => !in_main && held,
        None => false,
    }
}

/// A read ends at once with what the index knows, and otherwise goes to the record that the
/// index points at, unless that is the one that could not be read.
pub proof fn reads_follow_the_index(s: &GetState, l: DomainResult<Lookup>, r: GetAction)
    requires
        call_ensures(get_on_lookup, (s, l), r),
    ensures
        match l {
            Ok(Lookup::Inline(v)) => r matches GetAction::Done(Ok(b)) && b@ == v@,
            Ok(Lookup::Addr(e)) => if s.prev == Some(e) {
                r matches GetAction::Done(Err(DomainError::Io(_)))
            } else {
                r matches GetAction::Read(f) && f == e
            },
            Ok(Lookup::Missing) => r matches GetAction::Done(Err(DomainError::NotFound)),
            Err(e) => r matches GetAction::Done(Err(f)) && f@ == e@,
        },
{
    assert(r@ is Done || r@ is Read || r@ is Lookup);
}

/// A record that is read whole gives the body behind its key, at any length; one whose
/// checksum differs is corrupt; one that cannot be read is looked up once more and then given
/// up.
pub proof fn records_are_returned_whole(
    s: GetState,
    key: Seq<u8>,
    e: AddrEntry,
    head: Seq<u8>,
    name: Seq<u8>,
    stored: Seq<u8>,
    rest: Seq<u8>,
)
    requires
        s.attempts < 2,
        head.len() == 20,
        name.len() == e.addr.key_len,
        stored.len() == e.addr.stored_len,
    ensures
        ({
            let (t, a) = get_after_read(s, key, e, Some(head + name + stored + rest));
            &&& t == s
            &&& segment::crc32(name + stored) == e.crc && e.flags == 0 ==> a == GetView::Done(
                Ok(stored),
            )
            &&& segment::crc32(name + stored) == e.crc && e.flags == 1
                && index::zstd_decompressed(stored, e.logical_len as nat) is Ok && (
            index::zstd_decompressed(stored, e.logical_len as nat)->Ok_0).len() == e.logical_len
                ==> a == GetView::Done(
                Ok((index::zstd_decompressed(stored, e.logical_len as nat))->Ok_0),
            )
            &&& segment::crc32(name + stored) != e.crc ==> (a matches GetView::Done(
                Err(domain::ErrorView::Corrupt(_)),
            ))
        }),
        ({
            let (t, a) = get_after_read(s, key, e, None);
            &&& t.prev == Some(e) && t.attempts == s.attempts + 1
            &&& s.attempts == 0 ==> a is Lookup
            &&& s.attempts == 1 ==> (a matches GetView::Done(Err(domain::ErrorView::Io(_))))
        }),
{
    assert(0u16 & 1u16 == 0u16 && 1u16 & 1u16 == 1u16) by (bit_vector);
    let b = head + name + stored + rest;
    let end = e.addr.total() as int;
    assert(b.subrange(20, end) =~= name + stored);
    assert(b.subrange(20 + e.addr.key_len, end) =~= stored);
}

/// The number in a segment's name is the number it was made with, and other names have none.
pub proof fn segment_names_are_read(id: u32, zeros: nat, other: &str, r: Option<u32>)
    requires
        call_ensures(parse_segment_name, (other,), r),
    ensures
        other@ == "seg."@ + Seq::new(zeros, |i: int| '0') + text::dec_chars(id as nat) + ".dat"@
            ==> r == Some(id),
        other@ == segment::seg_name(id) ==> r == Some(id),
        !bytes::has_prefix(other@, "seg."@) ==> r is None,
        !text::suffixed(other@, ".dat"@) ==> r is None,
{
    reveal_strlit("seg.");
    reveal_strlit(".dat");
    let d = text::dec_chars(id as nat);
    lemma_named(id, zeros);
    if d.len() < 8 {
        lemma_named(id, (8 - d.len()) as nat);
    } else {
        lemma_named(id, 0);
        assert("seg."@ + Seq::new(0, |i: int| '0') + d =~= "seg."@ + d);
    }
    if d.len() < 8 {
        let z = Seq::new((8 - d.len()) as nat, |i: int| '0');
        assert("seg."@ + z + d + ".dat"@ =~= "seg."@ + (z + d) + ".dat"@);
    }
    if bytes::has_prefix(other@, "seg."@) && text::suffixed(other@.skip(4), ".dat"@) {
        let n = other@.len() as int;
        assert(other@.skip(n - 4) =~= other@.skip(4).skip(n - 8));
    }
}

proof fn lemma_named(id: u32, zeros: nat)
    ensures
        segment_of_name(
            "seg."@ + Seq::new(zeros, |i: int| '0') + text::dec_chars(id as nat) + ".dat"@,
        ) == Some(id as nat),
{
    reveal_strlit("seg.");
    reveal_strlit(".dat");
    let z = Seq::new(zeros, |i: int| '0');
    let d = text::dec_chars(id as nat);
    let n = "seg."@ + z + d + ".dat"@;
    assert(n.take(4) =~= "seg."@);
    assert(n.subrange(4, n.len() - 4) =~= z + d);
    assert(n.skip(4).skip(n.skip(4).len() - 4) =~= ".dat"@);
    text::dec_round_trip(id as nat);
    text::numbers_read_back(id as nat, u32::MAX as nat);
    text::zeros_in_front(zeros, d, u32::MAX as nat);
}

/// A file is a sealed segment exactly when its name is a segment's and it is not the active
/// one; its size comes along.
pub proof fn sealed_segments_are_listed(files: Seq<(Seq<char>, u64)>, active: u32, id: u32, size: u64)
    ensures
        sealed_of(files, active).contains((id, size)) <==> id != active && exists|i: int|
            0 <= i < files.len() && segment_of_name((#[trigger] files[i]).0) == Some(id as nat)
                && files[i].1 == size,
    decreases files.len(),
{
    if files.len() > 0 {
        let p = files.drop_last();
        let f = files.last();
        sealed_segments_are_listed(p, active, id, size);
        let all = sealed_of(files, active);
        let rest = sealed_of(p, active);
        if rest.contains((id, size)) {
            let j = choose|j: int| 0 <= j < rest.len() && rest[j] == (id, size);
            assert(all[j] == (id, size));
        }
        if all.contains((id, size)) && !rest.contains((id, size)) {
            let j = choose|j: int| 0 <= j < all.len() && all[j] == (id, size);
            if j < rest.len() {
                assert(rest[j] == (id, size));
            }
            assert(files[files.len() - 1] == f);
            lemma_named_small(f.0);
        }
        if id != active && exists|i: int|
            0 <= i < files.len() && segment_of_name((#[trigger] files[i]).0) == Some(id as nat)
                && files[i].1 == size {
            let i = choose|i: int|
                0 <= i < files.len() && segment_of_name((#[trigger] files[i]).0) == Some(id as nat)
                    && files[i].1 == size;
            if i < p.len() {
                assert(p[i] == files[i]);
            } else {
                assert(all[rest.len() as int] == (id, size));
            }
        }
        if exists|i: int|
            0 <= i < p.len() && segment_of_name((#[trigger] p[i]).0) == Some(id as nat) && p[i].1
                == size {
            let i = choose|i: int|
                0 <= i < p.len() && segment_of_name((#[trigger] p[i]).0) == Some(id as nat)
                    && p[i].1 == size;
            assert(files[i] == p[i]);
        }
    }
}

proof fn lemma_named_small(name: Seq<char>)
    ensures
        segment_of_name(name) matches Some(id) ==> id <= u32::MAX,
{
}

/// A segment is reported missing exactly when rows point into it and it is not on disk, and
/// every such row is a key at risk.
pub proof fn missing_segments_are_reported(
    refs: Seq<(u32, u64)>,
    sealed: Seq<(u32, u64)>,
    active: u32,
    seg: u32,
)
    ensures
        missing_of(refs, sealed, active).contains(seg) <==> listed(refs, seg) && seg != active
            && !listed(sealed, seg),
        (forall|i: int| 0 <= i < refs.len() ==> (#[trigger] refs[i]).0 == active || listed(
            sealed,
            refs[i].0,
        )) ==> at_risk(refs, sealed, active) == 0,
        forall|i: int|
            0 <= i < refs.len() && (#[trigger] refs[i]).0 != active && !listed(sealed, refs[i].0)
                ==> at_risk(refs, sealed, active) >= refs[i].1,
    decreases refs.len(),
{
    if refs.len() > 0 {
        let p = refs.drop_last();
        missing_segments_are_reported(p, sealed, active, seg);
        let all = missing_of(refs, sealed, active);
        let rest = missing_of(p, sealed, active);
        lemma_listed_step(refs, refs.len() - 1, seg);
        assert(refs.take(refs.len() as int) =~= refs);
        assert(refs.take(refs.len() - 1) =~= p);
        if rest.contains(seg) {
            let j = choose|j: int| 0 <= j < rest.len() && rest[j] == seg;
            assert(all[j] == seg);
        }
        if all.contains(seg) && !rest.contains(seg) {
            let j = choose|j: int| 0 <= j < all.len() && all[j] == seg;
            if j < rest.len() {
                assert(rest[j] == seg);
            }
        }
        if refs.last().0 == seg && !on_disk(sealed, active, seg) {
            assert(all[rest.len() as int] == seg);
        }
        assert forall|i: int|
            0 <= i < refs.len() && (#[trigger] refs[i]).0 != active && !listed(
                sealed,
                refs[i].0,
            ) implies at_risk(refs, sealed, active) >= refs[i].1 by {
            if i < p.len() {
                assert(p[i] == refs[i]);
            }
        }
        if forall|i: int|
            0 <= i < refs.len() ==> (#[trigger] refs[i]).0 == active || listed(sealed, refs[i].0) {
            assert forall|i: int| 0 <= i < p.len() implies (#[trigger] p[i]).0 == active || listed(
                sealed,
                p[i].0,
            ) by {
                assert(p[i] == refs[i]);
            }
            assert(refs[refs.len() - 1].0 == active || listed(sealed, refs[refs.len() - 1].0));
        }
    }
}

/// Ballast is made only where twice its size is free, kept where it has the right size, and
/// removed where it is switched off.
pub proof fn ballast_needs_room(want: u64, there: Option<u64>, free: u64, r: BallastPlan)
    requires
        call_ensures(ensure_ballast, (want, there, free), r),
    ensures
        r is Remove <==> want == 0,
        r is Keep <==> want > 0 && there == Some(want),
        r is Create <==> want > 0 && there != Some(want) && free >= 2 * want || (want > 0 && there
            != Some(want) && free == u64::MAX),
{
}

/// The ballast stream has eight bytes for every step, and goes on where it stopped.
pub proof fn ballast_goes_on(x: u64, a: nat, b: nat)
    ensures
        ballast_stream(x, a).len() == 8 * a,
        ballast_state(x, a + b) == ballast_state(ballast_state(x, a), b),
        ballast_stream(x, a + b) == ballast_stream(x, a) + ballast_stream(ballast_state(x, a), b),
    decreases a + b,
{
    if b > 0 {
        ballast_goes_on(x, a, (b - 1) as nat);
        bytes::lemma_le_bytes_len(ballast_state(x, a + b) as nat, 8);
        assert((a + b - 1) as nat == a + (b - 1) as nat);
        let y = ballast_state(x, a);
        assert(ballast_stream(x, a + b) =~= ballast_stream(x, a) + ballast_stream(y, b));
    } else {
        assert(ballast_stream(x, a) =~= ballast_stream(x, a) + ballast_stream(
            ballast_state(x, a),
            0,
        ));
        if a > 0 {
            ballast_goes_on(x, (a - 1) as nat, 0);
            bytes::lemma_le_bytes_len(ballast_state(x, a) as nat, 8);
        }
    }
}

/// What is used shrinks by what goes, and never below nothing.
pub proof fn space_comes_back(used: u64, size: u64, r: u64)
    requires
        call_ensures(used_after, (used, size), r),
    ensures
        size <= used ==> r + size == used,
        size > used ==> r == 0,
{
}

/// The segment with the lowest number is the oldest, and there is one unless there is none.
pub proof fn low_numbers_are_old(sealed: &Vec<(u32, u64)>, r: Option<(u32, u64)>, i: int)
    requires
        call_ensures(oldest_segment, (sealed,), r),
        0 <= i < sealed@.len(),
    ensures
        r is Some,
        sealed@.contains(r->0),
        (r->0).0 <= sealed@[i].0,
{
}

/// A scrub goes on behind the last key of its page, and is done with a page that is not full.
pub proof fn scrubs_go_on_behind_their_page(keys: &Vec<(Vec<u8>, u64)>, limit: usize, r: ScrubStep)
    requires
        call_ensures(scrub_begin, (keys, limit), r),
    ensures
        r.checked == 0 && r.bytes == 0 && r.corrupt@.len() == 0,
        r.done <==> keys@.len() < limit,
        keys@.len() > 0 ==> r.last_key is Some && (r.last_key->0)@ == keys@[keys@.len() - 1].0@,
        keys@.len() == 0 ==> r.last_key is None,
{
}

/// A key is there when either index has it; ballast is gone when it was configured and its
/// file is not there; a file system's bytes are its blocks' bytes; a segment lies on the spare
/// disk only when the main one lacks it.
pub proof fn presence_is_told(
    inline: bool,
    addr: bool,
    there: bool,
    ballast: u64,
    present: bool,
    gone: bool,
    block: u64,
    blocks: u64,
    bytes: u64,
    in_main: bool,
    in_spare: Option<bool>,
    spare: bool,
)
    requires
        call_ensures(has, (inline, addr), there),
        call_ensures(ballast_released, (ballast, present), gone),
        call_ensures(fs_bytes, (block, blocks), bytes),
        call_ensures(seg_dir_of, (in_main, in_spare), spare),
    ensures
        there <==> inline || addr,
        gone <==> ballast >= 1 && !present,
        bytes == block * blocks,
        spare <==> !in_main && in_spare == Some(true),
{
}

/// Data takes the bytes of every sealed segment and of the active one: a segment more takes
/// its bytes more.
pub proof fn segments_take_their_bytes(
    few: &Vec<(u32, u64)>,
    more: &Vec<(u32, u64)>,
    active: u64,
    a: u64,
    b: u64,
)
    requires
        more@.len() == few@.len() + 1,
        more@.drop_last() == few@,
        call_ensures(data_bytes, (few, active), a),
        call_ensures(data_bytes, (more, active), b),
    ensures
        few@.len() == 0 ==> a == active,
        b == a + more@.last().1,
{
}

/// Every row that names a segment is a reference to that segment, and no other row is one.
pub proof fn rows_refer_to_their_segment(rows: Seq<Seq<u8>>, row: Seq<u8>, seg: u32)
    ensures
        refs_to(Seq::empty(), seg) == 0,
        row.len() == 22 || row.len() == 28 || row.len() == 36 ==> refs_to(rows.push(row), seg)
            == refs_to(rows, seg) + if bytes::le_value(row.subrange(0, 4)) == seg {
            1nat
        } else {
            0
        },
        row.len() != 22 && row.len() != 28 && row.len() != 36 ==> refs_to(rows.push(row), seg)
            == refs_to(rows, seg),
{
    assert(rows.push(row).drop_last() =~= rows);
    if row.len() == 22 || row.len() == 28 || row.len() == 36 {
        bytes::lemma_pow256_values();
        bytes::lemma_le_value_bound(row.subrange(0, 4));
    }
}

} // verus!
