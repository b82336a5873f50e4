//! A shard's state as mathematics, and what every operation keeps.
//!
//! The state is the three index tables and the segment files.  The functions
//! here say how the operations of the other modules act on it; the proofs say
//! that reads give back what was written, that deletes and collections touch
//! nothing else, and that the index stays in step with the files.
use vstd::prelude::*;
use crate::bytes;
use crate::domain;
use crate::index::{self, AddrEntry};
use crate::piece;
use crate::segment::{self, RecoveredRecord};

verus! {

/// Index tables and segment files.
#[verifier::ext_equal]
pub ghost struct Store {
    pub addr: Map<Seq<u8>, Seq<u8>>,
    pub inline: Map<Seq<u8>, Seq<u8>>,
    /// garbage bytes per segment
    pub discard: Map<u32, nat>,
    pub files: Map<u32, Seq<u8>>,
}

/// A row of a table, if there is one.
pub open spec fn row(table: Map<Seq<u8>, Seq<u8>>, key: Seq<u8>) -> Option<Seq<u8>> {
    if table.contains_key(key) {
        Some(table[key])
    } else {
        None
    }
}

/// A table after a change of one row.
pub open spec fn changed(
    table: Map<Seq<u8>, Seq<u8>>,
    key: Seq<u8>,
    c: index::RowChangeView,
) -> Map<Seq<u8>, Seq<u8>> {
    match c {
        index::RowChangeView::Keep => table,
        index::RowChangeView::Remove => table.remove(key),
        index::RowChangeView::Insert(v) => table.insert(key, v),
    }
}

/// Whether the record an entry points at is complete, intact and the key's.
pub open spec fn row_ok(files: Map<u32, Seq<u8>>, key: Seq<u8>, e: AddrEntry) -> bool {
    &&& files.contains_key(e.addr.seg_id)
    &&& e.addr.offset <= files[e.addr.seg_id].len()
    &&& segment::record_at(
        files[e.addr.seg_id].skip(e.addr.offset as int),
        e.addr.seg_id,
        e.addr.offset as int,
    ) == Some(
        segment::RecordView {
            key,
            addr: e.addr,
            crc: e.crc,
            flags: e.flags,
            logical_len: e.logical_len,
            stored: stored_bytes(files, e),
        },
    )
}

/// The stored body an entry points at.
pub open spec fn stored_bytes(files: Map<u32, Seq<u8>>, e: AddrEntry) -> Seq<u8> {
    files[e.addr.seg_id].subrange(
        e.addr.offset + 20 + e.addr.key_len,
        e.addr.offset + e.addr.total(),
    )
}

impl Store {
    /// Every address row points at an intact record of its key, and no key is
    /// in both tables.
    pub open spec fn inv(self) -> bool {
        &&& forall|k: Seq<u8>| #[trigger]
            self.addr.contains_key(k) ==> {
                &&& index::decoded_addr(self.addr[k]) is Some
                &&& row_ok(self.files, k, index::decoded_addr(self.addr[k])->0)
                &&& !self.inline.contains_key(k)
            }
    }

    /// What the index knows of a key.
    pub open spec fn lookup(self, key: Seq<u8>) -> Result<index::LookupView, domain::ErrorView> {
        index::looked_up(row(self.inline, key), row(self.addr, key))
    }

    /// The body of a key.
    pub open spec fn object(self, key: Seq<u8>) -> Option<Seq<u8>> {
        match self.lookup(key) {
            Ok(index::LookupView::Inline(v)) => Some(v),
            Ok(index::LookupView::Addr(e)) => if row_ok(self.files, key, e) {
                match index::opened_body(stored_bytes(self.files, e), e.flags, e.logical_len) {
                    Ok(b) => Some(b),
                    Err(_) => None,
                }
            } else {
                None
            },
            _ => None,
        }
    }

    /// Length of a key's body and of its object, from the index alone.
    pub open spec fn stat(self, key: Seq<u8>) -> Result<(u64, Option<u64>), domain::ErrorView> {
        match self.lookup(key) {
            Ok(l) => index::stat_of(l),
            Err(e) => Err(e),
        }
    }

    /// A transaction on the rows of a key.
    pub open spec fn apply(self, key: Seq<u8>, u: index::UpdateView) -> Store {
        Store {
            addr: changed(self.addr, key, u.addr),
            inline: changed(self.inline, key, u.inline),
            discard: match u.bump {
                Some(b) => self.discard.insert(
                    b.0,
                    (if self.discard.contains_key(b.0) {
                        self.discard[b.0]
                    } else {
                        0
                    }) + b.1 as nat,
                ),
                None => self.discard,
            },
            files: self.files,
        }
    }

    pub open spec fn file(self, seg: u32) -> Seq<u8> {
        if self.files.contains_key(seg) {
            self.files[seg]
        } else {
            Seq::empty()
        }
    }

    /// A record written at the end of a segment.
    pub open spec fn append(self, seg: u32, e: segment::Entry) -> Store {
        Store { files: self.files.insert(seg, self.file(seg) + e.encoded()), ..self }
    }

    /// The row of a record written at the end of a segment.
    pub open spec fn entry_at_end(self, seg: u32, e: segment::Entry, obj: Option<u64>) -> AddrEntry {
        let r = e.at(seg, self.file(seg).len() as int);
        AddrEntry {
            addr: r.addr,
            crc: r.crc,
            logical_len: e.logical_len,
            flags: e.flags,
            obj_logical: obj,
        }
    }

    /// A body put into a segment: the record first, then the row.
    pub open spec fn put(self, seg: u32, e: segment::Entry, obj: Option<u64>) -> Store {
        self.append(seg, e).apply(
            e.key,
            index::addr_put(self.entry_at_end(seg, e, obj), row(self.addr, e.key)),
        )
    }

    /// A body put into the inline table.
    pub open spec fn put_inline(self, key: Seq<u8>, data: Seq<u8>) -> Store {
        self.apply(key, index::inline_put(data, row(self.addr, key)))
    }

    pub open spec fn delete(self, key: Seq<u8>) -> Store {
        self.apply(key, index::delete_of(row(self.addr, key)))
    }

    /// Whether the index refers to the record `r`.
    pub open spec fn is_live(self, r: segment::RecordView) -> bool {
        self.lookup(r.key) matches Ok(index::LookupView::Addr(e)) && index::points_at(e, r.addr)
    }

    /// Whether some row points into a segment.
    pub open spec fn refers_to(self, seg: u32) -> bool {
        exists|k: Seq<u8>| #[trigger] self.addr.contains_key(k) && self.points_into(k, seg)
    }

    pub open spec fn points_into(self, key: Seq<u8>, seg: u32) -> bool {
        &&& self.addr.contains_key(key)
        &&& index::decoded_addr(self.addr[key]) matches Some(e) && e.addr.seg_id == seg
    }

    /// A segment's file and counter removed.
    pub open spec fn unlink(self, seg: u32) -> Store {
        Store { files: self.files.remove(seg), discard: self.discard.remove(seg), ..self }
    }

    /// A segment removed together with all rows that point into it.
    pub open spec fn evict(self, seg: u32) -> Store {
        Store {
            addr: self.addr.restrict(Set::new(|k: Seq<u8>| !self.points_into(k, seg))),
            ..self.unlink(seg)
        }
    }
}

proof fn lemma_record_at_extends(b: Seq<u8>, more: Seq<u8>, seg: u32, offset: int)
    requires
        segment::record_at(b, seg, offset) is Some,
    ensures
        segment::record_at(b + more, seg, offset) == segment::record_at(b, seg, offset),
{
    let c = b + more;
    assert(c.subrange(0, 4) =~= b.subrange(0, 4));
    assert(c.subrange(4, 6) =~= b.subrange(4, 6));
    assert(c.subrange(6, 8) =~= b.subrange(6, 8));
    assert(c.subrange(8, 12) =~= b.subrange(8, 12));
    assert(c.subrange(12, 16) =~= b.subrange(12, 16));
    assert(c.subrange(16, 20) =~= b.subrange(16, 20));
    let h = segment::parsed_header(b)->0;
    let ke = 20 + h.key_len;
    let end = ke + h.stored_len;
    assert(c.subrange(20, end) =~= b.subrange(20, end));
    assert(c.subrange(20, ke) =~= b.subrange(20, ke));
    assert(c.subrange(ke, end) =~= b.subrange(ke, end));
}

/// An intact record stays intact when its segment grows.
pub(crate) proof fn lemma_row_ok_append(s: Store, key: Seq<u8>, e: AddrEntry, seg: u32, more: Seq<u8>)
    requires
        row_ok(s.files, key, e),
    ensures
        row_ok(s.files.insert(seg, s.file(seg) + more), key, e),
        stored_bytes(s.files.insert(seg, s.file(seg) + more), e) == stored_bytes(s.files, e),
{
    let g = s.files.insert(seg, s.file(seg) + more);
    if e.addr.seg_id == seg {
        let f = s.files[seg];
        let b = f.skip(e.addr.offset as int);
        lemma_record_at_extends(b, more, seg, e.addr.offset as int);
        assert((f + more).skip(e.addr.offset as int) =~= b + more);
        assert(b.len() >= e.addr.total());
        assert(stored_bytes(g, e) =~= stored_bytes(s.files, e));
    }
}

/// A record written at the end of a segment is intact under its row.
pub(crate) proof fn lemma_row_ok_new(s: Store, seg: u32, e: segment::Entry, obj: Option<u64>)
    requires
        e.fits(),
        s.file(seg).len() <= u64::MAX,
    ensures
        row_ok(s.append(seg, e).files, e.key, s.entry_at_end(seg, e, obj)),
        stored_bytes(s.append(seg, e).files, s.entry_at_end(seg, e, obj)) == e.stored,
{
    let f = s.file(seg);
    let g = s.append(seg, e).files;
    let ne = s.entry_at_end(seg, e, obj);
    segment::record_reads_back(e, Seq::empty(), seg, f.len() as int);
    segment::header_round_trip(e.header(), e.key + e.stored);
    assert(g[seg].skip(f.len() as int) =~= e.encoded() + Seq::<u8>::empty());
    assert(stored_bytes(g, ne) =~= e.stored);
}

/// Appending a record changes no object.
pub(crate) proof fn lemma_append_keeps(s: Store, seg: u32, e: segment::Entry)
    requires
        s.inv(),
    ensures
        s.append(seg, e).inv(),
        forall|k: Seq<u8>| #[trigger] s.append(seg, e).object(k) == s.object(k),
        forall|k: Seq<u8>| #[trigger] s.append(seg, e).stat(k) == s.stat(k),
{
    let t = s.append(seg, e);
    assert forall|k: Seq<u8>| #[trigger] t.addr.contains_key(k) implies {
        let r = index::decoded_addr(t.addr[k]);
        &&& r is Some
        &&& row_ok(t.files, k, r->0)
        &&& !t.inline.contains_key(k)
    } by {
        assert(s.addr.contains_key(k));
        lemma_row_ok_append(s, k, index::decoded_addr(s.addr[k])->0, seg, e.encoded());
    }
    assert forall|k: Seq<u8>| #[trigger] t.object(k) == s.object(k) by {
        if s.addr.contains_key(k) {
            lemma_row_ok_append(s, k, index::decoded_addr(s.addr[k])->0, seg, e.encoded());
        }
    }
}

/// A body put into a segment is read back; every other key keeps its body; the
/// index stays in step.
pub proof fn put_then_get(s: Store, seg: u32, e: segment::Entry, obj: Option<u64>, data: Seq<u8>)
    requires
        s.inv(),
        e.fits(),
        s.file(seg).len() <= u64::MAX,
        data.len() < 0x1_0000_0000,
        e.logical_len == data.len(),
        index::stores(e.stored, e.flags, data),
    ensures
        s.put(seg, e, obj).inv(),
        s.put(seg, e, obj).object(e.key) == Some(data),
        s.put(seg, e, obj).stat(e.key) == Ok::<(u64, Option<u64>), domain::ErrorView>(
            (data.len() as u64, obj),
        ),
        forall|k: Seq<u8>|
            k != e.key ==> #[trigger] s.put(seg, e, obj).object(k) == s.object(k),
{
    let ne = s.entry_at_end(seg, e, obj);
    let a = s.append(seg, e);
    let t = s.put(seg, e, obj);
    lemma_append_keeps(s, seg, e);
    lemma_row_ok_new(s, seg, e, obj);
    index::addr_round_trip(ne);
    index::body_round_trip(e.stored, e.flags, data);
    assert forall|k: Seq<u8>| #[trigger] t.addr.contains_key(k) implies {
        let r = index::decoded_addr(t.addr[k]);
        &&& r is Some
        &&& row_ok(t.files, k, r->0)
        &&& !t.inline.contains_key(k)
    } by {
        if k != e.key {
            assert(a.addr.contains_key(k));
        }
    }
    assert forall|k: Seq<u8>| k != e.key implies #[trigger] t.object(k) == s.object(k) by {
        assert(t.object(k) == a.object(k));
    }
}

/// A body put into the inline table is read back; every other key keeps its
/// body.
pub proof fn put_inline_then_get(s: Store, key: Seq<u8>, data: Seq<u8>)
    requires
        s.inv(),
        data.len() <= u64::MAX,
    ensures
        s.put_inline(key, data).inv(),
        s.put_inline(key, data).object(key) == Some(data),
        s.put_inline(key, data).stat(key) == Ok::<(u64, Option<u64>), domain::ErrorView>(
            (data.len() as u64, None),
        ),
        forall|k: Seq<u8>|
            k != key ==> #[trigger] s.put_inline(key, data).object(k) == s.object(k),
{
    let t = s.put_inline(key, data);
    assert forall|k: Seq<u8>| #[trigger] t.addr.contains_key(k) implies {
        let r = index::decoded_addr(t.addr[k]);
        &&& r is Some
        &&& row_ok(t.files, k, r->0)
        &&& !t.inline.contains_key(k)
    } by {
        assert(s.addr.contains_key(k));
    }
}

/// A deleted key is gone; every other key keeps its body; what became garbage
/// is counted.
pub proof fn delete_then_get(s: Store, key: Seq<u8>)
    requires
        s.inv(),
    ensures
        s.delete(key).inv(),
        s.delete(key).object(key) is None,
        s.delete(key).lookup(key) == Ok::<index::LookupView, domain::ErrorView>(
            index::LookupView::Missing,
        ),
        forall|k: Seq<u8>| k != key ==> #[trigger] s.delete(key).object(k) == s.object(k),
        s.lookup(key) matches Ok(index::LookupView::Addr(e)) ==> s.delete(
            key,
        ).discard.contains_key(e.addr.seg_id) && s.delete(key).discard[e.addr.seg_id] == (
        if s.discard.contains_key(e.addr.seg_id) {
            s.discard[e.addr.seg_id]
        } else {
            0
        }) + e.addr.stored_len,
{
    let t = s.delete(key);
    assert forall|k: Seq<u8>| #[trigger] t.addr.contains_key(k) implies {
        let r = index::decoded_addr(t.addr[k]);
        &&& r is Some
        &&& row_ok(t.files, k, r->0)
        &&& !t.inline.contains_key(k)
    } by {
        assert(s.addr.contains_key(k));
    }
}

/// Deleting a key twice is deleting it once.
pub proof fn delete_is_idempotent(s: Store, key: Seq<u8>)
    ensures
        s.delete(key).delete(key) == s.delete(key),
{
    assert(s.delete(key).delete(key) =~= s.delete(key));
}

/// The index knows the length of every readable body.
pub proof fn stat_is_body_length(s: Store, key: Seq<u8>)
    requires
        s.inv(),
        s.object(key) is Some,
        s.object(key)->0.len() <= u64::MAX,
        // a body that is not compressed is as long as its row says
        s.lookup(key) matches Ok(index::LookupView::Addr(e)) ==> (e.flags & segment::FLAG_ZSTD == 0
            ==> e.logical_len == e.addr.stored_len),
    ensures
        s.stat(key) matches Ok(v) && v.0 == s.object(key)->0.len(),
{
}

/// A segment no row points into can be removed: every body stays.
pub proof fn unlink_unreferenced(s: Store, seg: u32)
    requires
        s.inv(),
        !s.refers_to(seg),
    ensures
        s.unlink(seg).inv(),
        forall|k: Seq<u8>| #[trigger] s.unlink(seg).object(k) == s.object(k),
{
    let t = s.unlink(seg);
    assert forall|k: Seq<u8>| #[trigger] t.addr.contains_key(k) implies {
        let r = index::decoded_addr(t.addr[k]);
        &&& r is Some
        &&& row_ok(t.files, k, r->0)
        &&& !t.inline.contains_key(k)
    } by {
        assert(s.addr.contains_key(k));
        assert(!s.points_into(k, seg));
    }
    assert forall|k: Seq<u8>| #[trigger] t.object(k) == s.object(k) by {
        if s.addr.contains_key(k) {
            assert(!s.points_into(k, seg));
        }
    }
}

/// Evicting a segment removes exactly the keys whose bodies lie in it.
pub proof fn evict_removes_only_its_keys(s: Store, seg: u32)
    requires
        s.inv(),
    ensures
        s.evict(seg).inv(),
        forall|k: Seq<u8>|
            s.points_into(k, seg) ==> (#[trigger] s.evict(seg).object(k)) is None,
        forall|k: Seq<u8>|
            !s.points_into(k, seg) ==> #[trigger] s.evict(seg).object(k) == s.object(k),
{
    let t = s.evict(seg);
    assert forall|k: Seq<u8>| #[trigger] t.addr.contains_key(k) implies {
        let r = index::decoded_addr(t.addr[k]);
        &&& r is Some
        &&& row_ok(t.files, k, r->0)
        &&& !t.inline.contains_key(k)
    } by {
        assert(s.addr.contains_key(k));
        assert(!s.points_into(k, seg));
    }
    assert forall|k: Seq<u8>| s.points_into(k, seg) implies (#[trigger] t.object(k)) is None by {
        assert(s.addr.contains_key(k));
    }
    assert forall|k: Seq<u8>| !s.points_into(k, seg) implies #[trigger] t.object(k) == s.object(
        k,
    ) by {
        if s.addr.contains_key(k) {
            assert(t.addr.contains_key(k));
        }
    }
}

/// Setting the object length of a piece changes no body.
pub proof fn obj_logical_keeps_bodies(s: Store, key: Seq<u8>, obj: u64)
    requires
        s.inv(),
        index::with_obj_logical(row(s.addr, key), obj) is Some,
    ensures
        ({
            let e = index::with_obj_logical(row(s.addr, key), obj)->0;
            let t = Store { addr: s.addr.insert(key, e.encoded()), ..s };
            &&& t.inv()
            &&& t.stat(key) matches Ok(v) && v.1 == Some(obj)
            &&& forall|k: Seq<u8>| #[trigger] t.object(k) == s.object(k)
        }),
{
    let e = index::with_obj_logical(row(s.addr, key), obj)->0;
    let t = Store { addr: s.addr.insert(key, e.encoded()), ..s };
    index::addr_round_trip(e);
    assert(s.addr.contains_key(key));
    let old = index::decoded_addr(s.addr[key])->0;
    assert(row_ok(s.files, key, old));
    assert(stored_bytes(s.files, e) == stored_bytes(s.files, old));
    assert forall|k: Seq<u8>| #[trigger] t.addr.contains_key(k) implies {
        let r = index::decoded_addr(t.addr[k]);
        &&& r is Some
        &&& row_ok(t.files, k, r->0)
        &&& !t.inline.contains_key(k)
    } by {
        assert(s.addr.contains_key(k));
    }
}

/// A table with the rows of recovered records put back in order.
pub open spec fn put_back(
    table: Map<Seq<u8>, Seq<u8>>,
    recs: Seq<segment::RecordView>,
) -> Map<Seq<u8>, Seq<u8>>
    decreases recs.len(),
{
    if recs.len() == 0 {
        table
    } else {
        put_back(table, recs.drop_last()).insert(
            recs.last().key,
            index::recovered_row(recs.last()).encoded(),
        )
    }
}

/// The last of the records that is the key's.
pub open spec fn last_record(recs: Seq<segment::RecordView>, key: Seq<u8>) -> Option<
    segment::RecordView,
>
    decreases recs.len(),
{
    if recs.len() == 0 {
        None
    } else if recs.last().key == key {
        Some(recs.last())
    } else {
        last_record(recs.drop_last(), key)
    }
}

/// The object length that a body names if it is a piece.
pub open spec fn envelope_len(body: Seq<u8>) -> Option<u64> {
    match piece::parsed_piece(body) {
        Some(h) => Some(h.logical_len),
        None => None,
    }
}

/// The rows that recovered records get, each with its key, in order.
pub fn recovered_rows(recovered: &Vec<RecoveredRecord>) -> (r: Vec<(Vec<u8>, Vec<u8>)>)
    ensures
        r@.len() == recovered@.len(),
        forall|i: int|
            0 <= i < r@.len() ==> (#[trigger] r@[i]).0@ == recovered@[i].key@ && r@[i].1@
                == index::recovered_row(recovered@[i]@).encoded(),
{
    let mut out: Vec<(Vec<u8>, Vec<u8>)> = Vec::new();
    let mut i: usize = 0;
    while i < recovered.len()
        invariant
            i <= recovered@.len(),
            out@.len() == i,
            forall|j: int|
                0 <= j < i ==> (#[trigger] out@[j]).0@ == recovered@[j].key@ && out@[j].1@
                    == index::recovered_row(recovered@[j]@).encoded(),
        decreases recovered@.len() - i,
    {
        let r = &recovered[i];
        let key = bytes::copy_range(r.key.as_slice(), 0, r.key.len());
        assert(key@ =~= r.key@);
        let row = index::encode_addr(&index::recovered_entry(r));
        out.push((key, row));
        i = i + 1;
    }
    out
}

impl Store {
    /// The bytes of a segment from `from` on.
    pub open spec fn tail(self, seg: u32, from: int) -> Seq<u8> {
        if 0 <= from <= self.file(seg).len() {
            self.file(seg).skip(from)
        } else {
            Seq::empty()
        }
    }

    /// The records that a restart finds behind `from`.
    pub open spec fn recovered(self, seg: u32, from: int) -> Seq<segment::RecordView> {
        segment::scanned(self.tail(seg, from), seg, from)
    }

    /// What stands behind `from` is nothing but intact records.
    pub open spec fn tail_whole(self, seg: u32, from: int) -> bool {
        &&& 0 <= from <= self.file(seg).len() <= u64::MAX
        &&& segment::scanned_len(self.tail(seg, from)) == self.tail(seg, from).len()
    }

    /// A restart finds a key as it is: its body is inline, or its record is the key's last
    /// behind `from`, or it has none there and its record ends before `from`.
    pub open spec fn survives(self, seg: u32, from: int, key: Seq<u8>) -> bool {
        match self.lookup(key) {
            Ok(index::LookupView::Inline(_)) => true,
            Ok(index::LookupView::Addr(e)) => match last_record(self.recovered(seg, from), key) {
                Some(r) => index::points_at(e, r.addr),
                None => e.addr.seg_id != seg || e.addr.offset + e.addr.total() <= from,
            },
            _ => false,
        }
    }

    /// What the index says of a key after a restart: a record that was put back has the
    /// object length that its envelope names.
    pub open spec fn stat_after(self, seg: u32, from: int, key: Seq<u8>) -> Result<
        (u64, Option<u64>),
        domain::ErrorView,
    > {
        match (self.stat(key), self.object(key)) {
            (Ok(v), Some(body)) => if row(self.inline, key) is None && last_record(
                self.recovered(seg, from),
                key,
            ) is Some {
                Ok((v.0, envelope_len(body)))
            } else {
                Ok(v)
            },
            (r, _) => r,
        }
    }
}

/// A shard after a restart with the segment `active`, of which `from` bytes are known to be
/// durable: the records behind are put back into the index in order, what follows them is
/// cut off.
pub open spec fn reopened(s: Store, active: u32, from: int) -> Store {
    let f = s.file(active);
    let end = if 0 <= from <= f.len() {
        from + segment::scanned_len(s.tail(active, from))
    } else {
        f.len() as int
    };
    Store {
        addr: put_back(s.addr, s.recovered(active, from)),
        files: s.files.insert(active, f.take(end)),
        ..s
    }
}

proof fn lemma_put_back(
    table: Map<Seq<u8>, Seq<u8>>,
    recs: Seq<segment::RecordView>,
    key: Seq<u8>,
)
    ensures
        row(put_back(table, recs), key) == match last_record(recs, key) {
            Some(r) => Some(index::recovered_row(r).encoded()),
            None => row(table, key),
        },
        last_record(recs, key) matches Some(r) ==> r.key == key && recs.contains(r),
    decreases recs.len(),
{
    if recs.len() > 0 {
        let p = recs.drop_last();
        lemma_put_back(table, p, key);
        assert(recs[recs.len() - 1] == recs.last());
        if recs.last().key != key {
            if let Some(r) = last_record(p, key) {
                let i = choose|i: int| 0 <= i < p.len() && p[i] == r;
                assert(recs[i] == r);
            }
        }
    }
}

/// A record that lies within a prefix is found there just the same.
proof fn lemma_record_at_prefix(b: Seq<u8>, n: int, seg: u32, offset: int)
    requires
        0 <= n <= b.len(),
        segment::record_at(b, seg, offset) matches Some(r) && r.addr.total() <= n,
    ensures
        segment::record_at(b.take(n), seg, offset) == segment::record_at(b, seg, offset),
{
    let c = b.take(n);
    assert(c.subrange(0, 4) =~= b.subrange(0, 4));
    assert(c.subrange(4, 6) =~= b.subrange(4, 6));
    assert(c.subrange(6, 8) =~= b.subrange(6, 8));
    assert(c.subrange(8, 12) =~= b.subrange(8, 12));
    assert(c.subrange(12, 16) =~= b.subrange(12, 16));
    assert(c.subrange(16, 20) =~= b.subrange(16, 20));
    let h = segment::parsed_header(b)->0;
    let ke = 20 + h.key_len;
    let end = ke + h.stored_len;
    assert(c.subrange(20, end) =~= b.subrange(20, end));
    assert(c.subrange(20, ke) =~= b.subrange(20, ke));
    assert(c.subrange(ke, end) =~= b.subrange(ke, end));
}

/// Every record of a scan stands where it says.
proof fn lemma_scanned_at(buf: Seq<u8>, seg: u32, offset: int, i: int)
    requires
        0 <= offset,
        offset + buf.len() <= u64::MAX,
        0 <= i < segment::scanned(buf, seg, offset).len(),
    ensures
        ({
            let r = segment::scanned(buf, seg, offset)[i];
            let at = r.addr.offset - offset;
            &&& r.addr.seg_id == seg
            &&& 0 <= at <= buf.len()
            &&& at + r.addr.total() <= segment::scanned_len(buf) <= buf.len()
            &&& segment::record_at(buf.skip(at), seg, r.addr.offset as int) == Some(r)
        }),
    decreases buf.len(),
{
    segment::lemma_scanned_len(buf);
    let first = segment::record_at(buf, seg, offset)->0;
    segment::lemma_record_at_offset(buf, seg, offset, 0, 0);
    let n = first.addr.total() as int;
    if i == 0 {
        assert(buf.skip(0) =~= buf);
    } else {
        let rest = segment::scanned(buf.skip(n), seg, offset + n);
        assert(segment::scanned(buf, seg, offset)[i] == rest[i - 1]);
        lemma_scanned_at(buf.skip(n), seg, offset + n, i - 1);
        let r = rest[i - 1];
        assert(buf.skip(n).skip(r.addr.offset - (offset + n)) =~= buf.skip(
            r.addr.offset - offset,
        ));
    }
}

/// An intact record that ends before a cut stays intact.
proof fn lemma_row_ok_cut(s: Store, key: Seq<u8>, e: AddrEntry, seg: u32, end: int)
    requires
        row_ok(s.files, key, e),
        0 <= end <= s.file(seg).len(),
        e.addr.seg_id == seg ==> e.addr.offset + e.addr.total() <= end,
    ensures
        row_ok(s.files.insert(seg, s.file(seg).take(end)), key, e),
        stored_bytes(s.files.insert(seg, s.file(seg).take(end)), e) == stored_bytes(s.files, e),
{
    let g = s.files.insert(seg, s.file(seg).take(end));
    if e.addr.seg_id == seg {
        let f = s.files[seg];
        let at = e.addr.offset as int;
        lemma_record_at_prefix(f.skip(at), end - at, seg, at);
        assert(f.take(end).skip(at) =~= f.skip(at).take(end - at));
        assert(stored_bytes(g, e) =~= stored_bytes(s.files, e));
    }
}

/// A restart keeps every body that it finds, whatever was not flushed: the key reads back
/// as before, and has the size it had.  The object length of a record that was put back is
/// the one that its envelope names.
pub proof fn restarts_keep_bodies(s: Store, active: u32, from: int, key: Seq<u8>)
    requires
        s.inv(),
        s.object(key) is Some,
        0 <= from,
        s.file(active).len() <= u64::MAX,
        s.survives(active, from, key),
    ensures
        reopened(s, active, from).object(key) == s.object(key),
        reopened(s, active, from).stat(key) == s.stat_after(active, from, key),
        (s.stat(key) matches Ok(v) && v.1 == envelope_len(s.object(key)->0)) ==> reopened(
            s,
            active,
            from,
        ).stat(key) == s.stat(key),
{
    let t = reopened(s, active, from);
    let f = s.file(active);
    let buf = s.tail(active, from);
    let recs = s.recovered(active, from);
    segment::lemma_scanned_len(buf);
    lemma_put_back(s.addr, recs, key);
    if row(s.inline, key) is None {
        let e = index::decoded_addr(s.addr[key])->0;
        assert(s.addr.contains_key(key));
        assert(row_ok(s.files, key, e));
        let end = t.files[active].len() as int;
        assert(t.files == s.files.insert(active, f.take(end)));
        if let Some(r) = last_record(recs, key) {
            let i = choose|i: int| 0 <= i < recs.len() && recs[i] == r;
            lemma_scanned_at(buf, active, from, i);
            let at = r.addr.offset as int;
            assert(buf.skip(at - from) =~= f.skip(at));
            assert(segment::record_at(f.skip(at), active, at) == Some(r));
            assert(s.files.contains_key(active) && s.files[active] == f);
            assert(r.addr == e.addr);
            let ne = index::recovered_row(r);
            index::addr_round_trip(ne);
            assert(stored_bytes(s.files, ne) == stored_bytes(s.files, e));
            assert(row_ok(s.files, key, ne));
            lemma_row_ok_cut(s, key, ne, active, end);
            assert(t.lookup(key) == Ok::<index::LookupView, domain::ErrorView>(
                index::LookupView::Addr(ne),
            ));
            assert(ne.obj_logical == envelope_len(s.object(key)->0));
        } else {
            lemma_row_ok_cut(s, key, e, active, end);
        }
    }
}

/// A restart needs no row of a record that is not yet durable: whatever the address table
/// says of the key, or if it says nothing, the body is found as if the row were there.
pub proof fn lost_rows_come_back(s: Store, lost: Store, active: u32, from: int, key: Seq<u8>)
    requires
        s.inv(),
        s.object(key) is Some,
        0 <= from,
        s.file(active).len() <= u64::MAX,
        s.survives(active, from, key),
        last_record(s.recovered(active, from), key) is Some,
        lost.files == s.files,
        row(lost.inline, key) == row(s.inline, key),
    ensures
        reopened(lost, active, from).object(key) == s.object(key),
        reopened(lost, active, from).stat(key) == s.stat_after(active, from, key),
{
    restarts_keep_bodies(s, active, from, key);
    lemma_put_back(s.addr, s.recovered(active, from), key);
    lemma_put_back(lost.addr, s.recovered(active, from), key);
    assert(lost.recovered(active, from) == s.recovered(active, from));
    assert(reopened(lost, active, from).files == reopened(s, active, from).files);
    assert(reopened(lost, active, from).lookup(key) == reopened(s, active, from).lookup(key));
}

/// Records follow each other: a scan of more finds what a scan of less found, then the rest.
proof fn lemma_scan_goes_on(buf: Seq<u8>, more: Seq<u8>, seg: u32, offset: int)
    requires
        segment::scanned_len(buf) == buf.len(),
    ensures
        segment::scanned(buf + more, seg, offset) == segment::scanned(buf, seg, offset)
            + segment::scanned(more, seg, offset + buf.len()),
        segment::scanned_len(buf + more) == buf.len() + segment::scanned_len(more),
    decreases buf.len(),
{
    if buf.len() == 0 {
        assert(buf + more =~= more);
        segment::lemma_scanned_len(buf);
        assert(segment::record_at(buf, seg, offset) is None);
        assert(segment::scanned(buf, seg, offset) + segment::scanned(more, seg, offset)
            =~= segment::scanned(more, seg, offset));
    } else {
        let r = segment::record_at(buf, seg, offset);
        segment::lemma_record_at_offset(buf, seg, offset, 0, 0);
        let n = (r->0).addr.total() as int;
        lemma_record_at_extends(buf, more, seg, offset);
        lemma_record_at_extends(buf, more, 0, 0);
        segment::lemma_scanned_len(buf.skip(n));
        lemma_scan_goes_on(buf.skip(n), more, seg, offset + n);
        assert((buf + more).skip(n) =~= buf.skip(n) + more);
        assert(segment::scanned(buf + more, seg, offset) =~= segment::scanned(buf, seg, offset)
            + segment::scanned(more, seg, offset + buf.len()));
    }
}

/// A record written behind whole records is the last that a restart finds.
proof fn lemma_recovered_append(s: Store, seg: u32, from: int, e: segment::Entry)
    requires
        e.fits(),
        s.tail_whole(seg, from),
    ensures
        s.append(seg, e).recovered(seg, from) == s.recovered(seg, from).push(
            e.at(seg, s.file(seg).len() as int),
        ),
        s.file(seg).len() + e.encoded().len() <= u64::MAX ==> s.append(seg, e).tail_whole(
            seg,
            from,
        ),
{
    let t = s.append(seg, e);
    let buf = s.tail(seg, from);
    let at = s.file(seg).len() as int;
    assert(t.tail(seg, from) =~= buf + e.encoded());
    lemma_scan_goes_on(buf, e.encoded(), seg, from);
    segment::record_reads_back(e, Seq::empty(), seg, at);
    segment::record_reads_back(e, Seq::empty(), 0, 0);
    assert(e.encoded() + Seq::<u8>::empty() =~= e.encoded());
    let rest = e.encoded().skip(e.encoded().len() as int);
    assert(rest =~= Seq::empty());
    assert(segment::record_at(rest, seg, at + e.encoded().len()) is None);
    assert(segment::record_at(rest, 0, 0) is None);
    assert(segment::scanned(rest, seg, at + e.encoded().len()) =~= Seq::empty());
    assert(segment::scanned_len(rest) == 0);
    assert(e.at(seg, at).addr.total() == e.encoded().len());
    assert(e.at(0, 0).addr.total() == e.encoded().len());
    assert(segment::scanned(e.encoded(), seg, at) =~= seq![e.at(seg, at)]);
    assert(t.recovered(seg, from) =~= s.recovered(seg, from).push(e.at(seg, at)));
}

/// What a restart finds after a put: one record more.
proof fn lemma_recovered_put(s: Store, seg: u32, from: int, e: segment::Entry, obj: Option<u64>)
    requires
        e.fits(),
        s.tail_whole(seg, from),
        s.file(seg).len() + e.encoded().len() <= u64::MAX,
    ensures
        s.put(seg, e, obj).tail_whole(seg, from),
        s.put(seg, e, obj).recovered(seg, from) == s.recovered(seg, from).push(
            e.at(seg, s.file(seg).len() as int),
        ),
{
    lemma_recovered_append(s, seg, from, e);
    assert(s.put(seg, e, obj).files == s.append(seg, e).files);
    assert(s.put(seg, e, obj).tail(seg, from) == s.append(seg, e).tail(seg, from));
}

/// A put leaves what the index says of another key.
proof fn lemma_put_elsewhere(s: Store, seg: u32, e: segment::Entry, obj: Option<u64>, key: Seq<u8>)
    requires
        key != e.key,
    ensures
        s.put(seg, e, obj).lookup(key) == s.lookup(key),
{
}

/// A put without a flush is found by a restart, and puts of other keys do not hide a body
/// from it.
pub proof fn restarts_find_puts(s: Store, seg: u32, from: int, e: segment::Entry, obj: Option<u64>)
    requires
        e.fits(),
        s.tail_whole(seg, from),
        s.file(seg).len() + e.encoded().len() <= u64::MAX,
    ensures
        s.put(seg, e, obj).tail_whole(seg, from),
        s.put(seg, e, obj).survives(seg, from, e.key),
        forall|k: Seq<u8>|
            k != e.key && s.survives(seg, from, k) ==> #[trigger] s.put(seg, e, obj).survives(
                seg,
                from,
                k,
            ),
{
    let t = s.put(seg, e, obj);
    let before = s.recovered(seg, from);
    let after = t.recovered(seg, from);
    lemma_recovered_put(s, seg, from, e, obj);
    assert(after.drop_last() =~= before);
    assert(t.survives(seg, from, e.key)) by {
        index::addr_round_trip(s.entry_at_end(seg, e, obj));
    }
    assert forall|k: Seq<u8>| k != e.key && s.survives(
        seg,
        from,
        k,
    ) implies #[trigger] t.survives(seg, from, k) by {
        lemma_put_elsewhere(s, seg, e, obj, k);
        assert(last_record(after, k) == last_record(before, k));
    }
}

/// A body put into the inline table is found by a restart, and neither that nor a delete
/// hides the body of another key from it.
pub proof fn restarts_find_inline_puts(s: Store, seg: u32, from: int, key: Seq<u8>, data: Seq<u8>)
    requires
        s.tail_whole(seg, from),
    ensures
        s.put_inline(key, data).tail_whole(seg, from),
        s.put_inline(key, data).survives(seg, from, key),
        forall|k: Seq<u8>|
            k != key && s.survives(seg, from, k) ==> #[trigger] s.put_inline(key, data).survives(
                seg,
                from,
                k,
            ),
        s.delete(key).tail_whole(seg, from),
        forall|k: Seq<u8>|
            k != key && s.survives(seg, from, k) ==> #[trigger] s.delete(key).survives(
                seg,
                from,
                k,
            ),
{
    let t = s.put_inline(key, data);
    let d = s.delete(key);
    assert(t.files == s.files && d.files == s.files);
    assert forall|k: Seq<u8>| k != key && s.survives(seg, from, k) implies #[trigger] t.survives(
        seg,
        from,
        k,
    ) by {
        assert(t.lookup(k) == s.lookup(k));
    }
    assert forall|k: Seq<u8>| k != key && s.survives(seg, from, k) implies #[trigger] d.survives(
        seg,
        from,
        k,
    ) by {
        assert(d.lookup(k) == s.lookup(k));
    }
}

/// After a flush, and on a fresh segment, a restart finds every key.
pub proof fn restarts_find_what_was_flushed(s: Store, seg: u32, key: Seq<u8>)
    requires
        s.inv(),
        s.file(seg).len() <= u64::MAX,
        s.object(key) is Some,
    ensures
        s.tail_whole(seg, s.file(seg).len() as int),
        s.survives(seg, s.file(seg).len() as int, key),
{
    let from = s.file(seg).len() as int;
    let buf = s.tail(seg, from);
    assert(buf =~= Seq::empty());
    assert(segment::record_at(buf, seg, from) is None);
    assert(segment::record_at(buf, 0, 0) is None);
    if row(s.inline, key) is None {
        assert(s.addr.contains_key(key));
        let e = index::decoded_addr(s.addr[key])->0;
        assert(row_ok(s.files, key, e));
    }
}

/// A write that was cut short by a crash changes nothing for a restart.
pub proof fn restarts_drop_torn_writes(s: Store, seg: u32, from: int, torn: Seq<u8>)
    requires
        s.tail_whole(seg, from),
        segment::record_at(torn, 0, 0) is None,
    ensures
        reopened(
            Store { files: s.files.insert(seg, s.file(seg) + torn), ..s },
            seg,
            from,
        ) == reopened(s, seg, from),
{
    let t = Store { files: s.files.insert(seg, s.file(seg) + torn), ..s };
    let buf = s.tail(seg, from);
    assert(t.tail(seg, from) =~= buf + torn);
    lemma_scan_goes_on(buf, torn, seg, from);
    segment::lemma_record_at_offset(torn, seg, from + buf.len(), 0, 0);
    assert(t.recovered(seg, from) =~= s.recovered(seg, from));
    assert(t.file(seg).take(s.file(seg).len() as int) =~= s.file(seg));
    assert(s.file(seg).take(s.file(seg).len() as int) =~= s.file(seg));
    assert(reopened(t, seg, from) =~= reopened(s, seg, from));
}

/// A body that was put and not flushed is read back after a crash, though a later write was
/// cut short; so is its size, and the object length of a piece.
pub proof fn puts_outlive_a_crash(
    s: Store,
    seg: u32,
    from: int,
    e: segment::Entry,
    obj: Option<u64>,
    data: Seq<u8>,
    torn: Seq<u8>,
)
    requires
        s.inv(),
        e.fits(),
        s.tail_whole(seg, from),
        s.file(seg).len() + e.encoded().len() <= u64::MAX,
        data.len() < 0x1_0000_0000,
        e.logical_len == data.len(),
        index::stores(e.stored, e.flags, data),
        segment::record_at(torn, 0, 0) is None,
    ensures
        ({
            let t = s.put(seg, e, obj);
            let r = reopened(
                Store { files: t.files.insert(seg, t.file(seg) + torn), ..t },
                seg,
                from,
            );
            &&& r.object(e.key) == Some(data)
            &&& r.stat(e.key) == Ok::<(u64, Option<u64>), domain::ErrorView>(
                (data.len() as u64, envelope_len(data)),
            )
        }),
{
    let t = s.put(seg, e, obj);
    put_then_get(s, seg, e, obj, data);
    restarts_find_puts(s, seg, from, e, obj);
    restarts_drop_torn_writes(t, seg, from, torn);
    restarts_keep_bodies(t, seg, from, e.key);
    lemma_recovered_append(s, seg, from, e);
    assert(t.tail(seg, from) == s.append(seg, e).tail(seg, from));
    assert(last_record(t.recovered(seg, from), e.key) is Some);
    index::addr_round_trip(s.entry_at_end(seg, e, obj));
}

/// A shard at work: its state, the segment that is written, and how much of that is durable.
pub ghost struct Shard {
    pub store: Store,
    pub active: u32,
    pub durable: int,
}

/// What a shard does.
pub ghost enum ShardOp {
    /// a body put into the active segment: its record, the object length of a piece, the body
    Put(segment::Entry, Option<u64>, Seq<u8>),
    /// a body put into the inline table
    Inline(Seq<u8>, Seq<u8>),
    Delete(Seq<u8>),
    Flush,
    /// another segment, with nothing in it, is written from now on
    Roll(u32),
}

impl ShardOp {
    /// Whether the operation writes or deletes a key.
    pub open spec fn touches(self, key: Seq<u8>) -> bool {
        match self {
            ShardOp::Put(e, _, _) => e.key == key,
            ShardOp::Inline(k, _) => k == key,
            ShardOp::Delete(k) => k == key,
            ShardOp::Flush => false,
            ShardOp::Roll(_) => false,
        }
    }

    /// Whether the operation puts a body under a key.
    pub open spec fn puts(self, key: Seq<u8>, data: Seq<u8>) -> bool {
        match self {
            ShardOp::Put(e, _, d) => e.key == key && d == data,
            ShardOp::Inline(k, d) => k == key && d == data,
            _ => false,
        }
    }
}

impl Shard {
    /// The index is in step with the files, and what is not yet durable is whole records.
    pub open spec fn wf(self) -> bool {
        self.store.inv() && self.store.tail_whole(self.active, self.durable)
    }

    /// Whether an operation can be done: a record holds the body it is put for and fits its
    /// segment, and a new segment is empty.
    pub open spec fn takes(self, op: ShardOp) -> bool {
        match op {
            ShardOp::Put(e, _, data) => {
                &&& e.fits()
                &&& self.store.file(self.active).len() + e.encoded().len() <= u64::MAX
                &&& data.len() < 0x1_0000_0000
                &&& e.logical_len == data.len()
                &&& index::stores(e.stored, e.flags, data)
            },
            ShardOp::Inline(_, data) => data.len() <= u64::MAX,
            ShardOp::Roll(seg) => self.store.file(seg).len() == 0,
            _ => true,
        }
    }

    /// The shard after an operation.
    pub open spec fn did(self, op: ShardOp) -> Shard {
        match op {
            ShardOp::Put(e, obj, _) => Shard { store: self.store.put(self.active, e, obj), ..self },
            ShardOp::Inline(k, data) => Shard { store: self.store.put_inline(k, data), ..self },
            ShardOp::Delete(k) => Shard { store: self.store.delete(k), ..self },
            ShardOp::Flush => Shard {
                durable: self.store.file(self.active).len() as int,
                ..self
            },
            ShardOp::Roll(seg) => Shard { active: seg, durable: 0, ..self },
        }
    }

    /// The state that a restart finds, when the shard is dropped as it is.
    pub open spec fn restarted(self) -> Store {
        reopened(self.store, self.active, self.durable)
    }
}

/// A shard after operations, one after the other.
pub open spec fn ran(s: Shard, ops: Seq<ShardOp>) -> Shard
    decreases ops.len(),
{
    if ops.len() == 0 {
        s
    } else {
        ran(s, ops.drop_last()).did(ops.last())
    }
}

/// Whether each operation can be done when its turn comes.
pub open spec fn possible(s: Shard, ops: Seq<ShardOp>) -> bool
    decreases ops.len(),
{
    ops.len() > 0 ==> possible(s, ops.drop_last()) && ran(s, ops.drop_last()).takes(ops.last())
}

/// A key has a body, and a restart finds it.
spec fn keeps(s: Shard, key: Seq<u8>, data: Seq<u8>) -> bool {
    &&& s.store.object(key) == Some(data)
    &&& s.store.stat(key) matches Ok(v) && v.0 == data.len()
    &&& s.store.survives(s.active, s.durable, key)
}

proof fn lemma_shard_step(s: Shard, op: ShardOp)
    requires
        s.wf(),
        s.takes(op),
    ensures
        s.did(op).wf(),
        forall|k: Seq<u8>, d: Seq<u8>| #[trigger] op.puts(k, d) ==> keeps(s.did(op), k, d),
        forall|k: Seq<u8>, d: Seq<u8>|
            !op.touches(k) && #[trigger] keeps(s, k, d) ==> keeps(s.did(op), k, d),
{
    let t = s.did(op);
    match op {
        ShardOp::Put(e, obj, data) => {
            put_then_get(s.store, s.active, e, obj, data);
            restarts_find_puts(s.store, s.active, s.durable, e, obj);
            assert forall|k: Seq<u8>, d: Seq<u8>|
                !op.touches(k) && #[trigger] keeps(s, k, d) implies keeps(t, k, d) by {
                assert(t.store.lookup(k) == s.store.lookup(k));
                assert(t.store.object(k) == s.store.object(k));
                assert(t.store.survives(t.active, t.durable, k));
            }
        },
        ShardOp::Inline(key, data) => {
            put_inline_then_get(s.store, key, data);
            restarts_find_inline_puts(s.store, s.active, s.durable, key, data);
            assert forall|k: Seq<u8>, d: Seq<u8>|
                !op.touches(k) && #[trigger] keeps(s, k, d) implies keeps(t, k, d) by {
                assert(t.store.lookup(k) == s.store.lookup(k));
                assert(t.store.object(k) == s.store.object(k));
                assert(t.store.survives(t.active, t.durable, k));
            }
        },
        ShardOp::Delete(key) => {
            delete_then_get(s.store, key);
            restarts_find_inline_puts(s.store, s.active, s.durable, key, Seq::empty());
            assert forall|k: Seq<u8>, d: Seq<u8>|
                !op.touches(k) && #[trigger] keeps(s, k, d) implies keeps(t, k, d) by {
                assert(t.store.lookup(k) == s.store.lookup(k));
                assert(t.store.object(k) == s.store.object(k));
                assert(t.store.survives(t.active, t.durable, k));
            }
        },
        _ => {
            lemma_nothing_behind(t.store, t.active);
            assert forall|k: Seq<u8>, d: Seq<u8>|
                !op.touches(k) && #[trigger] keeps(s, k, d) implies keeps(t, k, d) by {
                restarts_find_what_was_flushed(t.store, t.active, k);
            }
        },
    }
}

/// Behind the end of a segment there is nothing, which is whole.
proof fn lemma_nothing_behind(s: Store, seg: u32)
    requires
        s.file(seg).len() <= u64::MAX,
    ensures
        s.tail_whole(seg, s.file(seg).len() as int),
{
    let buf = s.tail(seg, s.file(seg).len() as int);
    assert(buf =~= Seq::empty());
    assert(segment::record_at(buf, 0, 0) is None);
}

proof fn lemma_shard_run(s: Shard, ops: Seq<ShardOp>, n: int, key: Seq<u8>, data: Seq<u8>)
    requires
        s.wf(),
        possible(s, ops),
        0 <= n,
        n < ops.len() ==> ops[n].puts(key, data),
        forall|j: int| n < j < ops.len() ==> !(#[trigger] ops[j]).touches(key),
    ensures
        ran(s, ops).wf(),
        n < ops.len() ==> keeps(ran(s, ops), key, data),
    decreases ops.len(),
{
    if ops.len() > 0 {
        let p = ops.drop_last();
        let before = ran(s, p);
        assert forall|j: int| n < j < p.len() implies !(#[trigger] p[j]).touches(key) by {
            assert(p[j] == ops[j]);
        }
        lemma_shard_run(s, p, n, key, data);
        lemma_shard_step(before, ops.last());
        assert(ops[ops.len() - 1] == ops.last());
        if n < p.len() {
            assert(keeps(before, key, data));
        }
    }
}

/// The last body put under a key is what is read, with its size, whatever happened to other
/// keys since, whether it lies inline, as it is or compressed; and so it is after the shard
/// was dropped without a flush and opened again.
pub proof fn last_puts_are_read_back(
    s: Shard,
    ops: Seq<ShardOp>,
    n: int,
    key: Seq<u8>,
    data: Seq<u8>,
)
    requires
        s.wf(),
        possible(s, ops),
        0 <= n < ops.len(),
        ops[n].puts(key, data),
        forall|j: int| n < j < ops.len() ==> !(#[trigger] ops[j]).touches(key),
    ensures
        ran(s, ops).store.object(key) == Some(data),
        ran(s, ops).store.stat(key) matches Ok(v) && v.0 == data.len(),
        ran(s, ops).restarted().object(key) == Some(data),
        ran(s, ops).restarted().stat(key) matches Ok(v) && v.0 == data.len(),
{
    lemma_shard_run(s, ops, n, key, data);
    let t = ran(s, ops);
    restarts_keep_bodies(t.store, t.active, t.durable, key);
}

/// Every record that a restart finds gets a row under its own key, in order.
pub proof fn every_found_record_gets_a_row(
    recovered: &Vec<RecoveredRecord>,
    r: Vec<(Vec<u8>, Vec<u8>)>,
    i: int,
)
    requires
        call_ensures(recovered_rows, (recovered,), r),
        0 <= i < recovered@.len(),
    ensures
        r@.len() == recovered@.len(),
        r@[i].0@ == recovered@[i].key@,
        index::decoded_addr(r@[i].1@) == Some(index::recovered_row(recovered@[i]@)),
{
    index::addr_round_trip(index::recovered_row(recovered@[i]@));
    assert(r@[i].0@ == recovered@[i].key@);
}

} // verus!
