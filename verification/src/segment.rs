//! Pack segments: append-only files of checksummed records.
//!
//! A record is `OZB2` | key length u16 | flags u16 | stored length u32 |
//! logical length u32 | CRC-32 u32 (twenty bytes, little-endian), the key and
//! the stored body.  The checksum covers key and stored body, that is, what is
//! on disk.  The logical length is that of the body before compression.
//!
//! A small meta file names the active segment and how much of it is known to
//! be durable; what follows that point is scanned record by record and cut off
//! at the first record that is incomplete or fails its checksum.
use vstd::prelude::*;
use vstd::string::*;
use crate::bytes;
use crate::text;

verus! {

/// The letters `OZB2`.
pub const MAGIC: [u8; 4] = [0x4f, 0x5a, 0x42, 0x32];

pub const HEADER_LEN: usize = 20;

/// The stored body is compressed.
pub const FLAG_ZSTD: u16 = 1;

/// The end of the active segment that stays in the page cache.
pub const KEEP_HOT_TAIL: u64 = 8388608;

/// Where a record lies.
#[derive(Clone, Copy, Debug, PartialEq, Eq, Structural)]
pub struct RecordAddr {
    pub seg_id: u32,
    /// position of the record's header in the segment
    pub offset: u64,
    /// length of the body as stored
    pub stored_len: u32,
    pub key_len: u16,
}

impl RecordAddr {
    /// Bytes the record takes in the segment.
    pub open spec fn total(&self) -> nat {
        (20 + self.key_len + self.stored_len) as nat
    }

    /// Bytes the record takes in the segment.
    pub fn record_len(&self) -> (r: u64)
        ensures
            r == self.total(),
    {
        20 + self.key_len as u64 + self.stored_len as u64
    }
}

/// The CRC-32 checksum of a byte sequence, as the crate `crc32fast` computes it.
pub uninterp spec fn crc32(data: Seq<u8>) -> u32;

/// `crc32fast::Hasher`, fed the two slices in turn: the checksum of their
/// concatenation.
#[verifier::external_body]
pub(crate) fn checksum(key: &[u8], data: &[u8]) -> (r: u32)
    ensures
        r == crc32(key@ + data@),
{
    let mut hasher = crc32fast::Hasher::new();
    hasher.update(key);
    hasher.update(data);
    hasher.finalize()
}

/// `n` in decimal, padded with zeros to eight digits.
pub open spec fn padded8(n: nat) -> Seq<char> {
    let d = text::dec_chars(n);
    if d.len() < 8 {
        Seq::new((8 - d.len()) as nat, |i: int| '0') + d
    } else {
        d
    }
}

/// The file name of a segment.
pub open spec fn seg_name(seg_id: u32) -> Seq<char> {
    "seg."@ + padded8(seg_id as nat) + ".dat"@
}

/// A file name below a directory.
pub open spec fn joined_path(dir: Seq<char>, name: Seq<char>) -> Seq<char> {
    if dir.len() == 0 || dir.last() == '/' {
        dir + name
    } else {
        dir + "/"@ + name
    }
}

fn join_path(dir: &str, name: &str) -> (r: String)
    ensures
        r@ == joined_path(dir@, name@),
{
    let mut out = dir.to_owned();
    let n: usize = dir.unicode_len();
    if n > 0 && dir.get_char(n - 1) != '/' {
        out.append("/");
    }
    out.append(name);
    out
}

/// The path of a segment's file.
pub fn seg_path(dir: &str, seg_id: u32) -> (r: String)
    ensures
        r@ == joined_path(dir@, seg_name(seg_id)),
{
    let digits = text::dec(seg_id as u64);
    let n: usize = digits.as_str().unicode_len();
    let mut name = "seg.".to_owned();
    let ghost base = name@;
    let mut pad: usize = n;
    while pad < 8
        invariant
            n <= pad,
            pad <= 8 || pad == n,
            name@ =~= base + Seq::new((pad - n) as nat, |i: int| '0'),
        decreases 8 - pad,
    {
        name.push('0');
        pad = pad + 1;
    }
    name.append(digits.as_str());
    name.append(".dat");
    assert(name@ =~= seg_name(seg_id));
    join_path(dir, name.as_str())
}

/// The path of the meta file.
pub fn meta_path(dir: &str) -> (r: String)
    ensures
        r@ == joined_path(dir@, "seg.meta"@),
{
    join_path(dir, "seg.meta")
}

/// The meta file: active segment u32 | durable length u64, little-endian.
pub open spec fn meta_bytes(seg_id: u32, flush_offset: u64) -> Seq<u8> {
    bytes::le_bytes(seg_id as nat, 4) + bytes::le_bytes(flush_offset as nat, 8)
}

/// Reading of a meta file; none unless it is twelve bytes long.
pub open spec fn parsed_meta(buf: Seq<u8>) -> Option<(u32, u64)> {
    if buf.len() != 12 {
        None
    } else {
        Some(
            (
                bytes::le_value(buf.subrange(0, 4)) as u32,
                bytes::le_value(buf.subrange(4, 12)) as u64,
            ),
        )
    }
}

pub fn encode_meta(seg_id: u32, flush_offset: u64) -> (r: Vec<u8>)
    ensures
        r@ == meta_bytes(seg_id, flush_offset),
{
    let mut out: Vec<u8> = Vec::new();
    bytes::push_le(&mut out, seg_id as u64, 4);
    bytes::push_le(&mut out, flush_offset, 8);
    assert(out@ =~= meta_bytes(seg_id, flush_offset));
    out
}

pub fn parse_meta(buf: &[u8]) -> (r: Option<(u32, u64)>)
    ensures
        r == parsed_meta(buf@),
{
    if buf.len() != 12 {
        return None;
    }
    proof {
        bytes::lemma_pow256_values();
    }
    let seg: u64 = bytes::read_le(buf, 0, 4);
    let off: u64 = bytes::read_le(buf, 4, 8);
    Some((seg as u32, off))
}

/// A written meta file reads back as what was written.
pub proof fn meta_round_trip(seg_id: u32, flush_offset: u64)
    ensures
        parsed_meta(meta_bytes(seg_id, flush_offset)) == Some((seg_id, flush_offset)),
{
    bytes::lemma_pow256_values();
    bytes::lemma_le_round_trip(seg_id as nat, 4);
    bytes::lemma_le_round_trip(flush_offset as nat, 8);
    let b = meta_bytes(seg_id, flush_offset);
    assert(b.subrange(0, 4) =~= bytes::le_bytes(seg_id as nat, 4));
    assert(b.subrange(4, 12) =~= bytes::le_bytes(flush_offset as nat, 8));
}

/// A record's header.
#[derive(Clone, Copy, Debug, PartialEq, Eq, Structural)]
pub struct ParsedHeader {
    pub key_len: u16,
    pub flags: u16,
    pub stored_len: u32,
    pub logical_len: u32,
    pub crc: u32,
}

impl ParsedHeader {
    pub open spec fn encoded(&self) -> Seq<u8> {
        seq![0x4fu8, 0x5a, 0x42, 0x32] + bytes::le_bytes(self.key_len as nat, 2) + bytes::le_bytes(
            self.flags as nat,
            2,
        ) + bytes::le_bytes(self.stored_len as nat, 4) + bytes::le_bytes(
            self.logical_len as nat,
            4,
        ) + bytes::le_bytes(self.crc as nat, 4)
    }
}

/// The header at the start of `h`.
pub open spec fn parsed_header(h: Seq<u8>) -> Option<ParsedHeader> {
    if h.len() < 20 || h.subrange(0, 4) != seq![0x4fu8, 0x5a, 0x42, 0x32] {
        None
    } else {
        Some(
            ParsedHeader {
                key_len: bytes::le_value(h.subrange(4, 6)) as u16,
                flags: bytes::le_value(h.subrange(6, 8)) as u16,
                stored_len: bytes::le_value(h.subrange(8, 12)) as u32,
                logical_len: bytes::le_value(h.subrange(12, 16)) as u32,
                crc: bytes::le_value(h.subrange(16, 20)) as u32,
            },
        )
    }
}

pub fn encode_header(h: &ParsedHeader) -> (r: Vec<u8>)
    ensures
        r@ == h.encoded(),
{
    let mut out: Vec<u8> = vec![0x4f, 0x5a, 0x42, 0x32];
    assert(out@ =~= seq![0x4fu8, 0x5a, 0x42, 0x32]);
    bytes::push_le(&mut out, h.key_len as u64, 2);
    bytes::push_le(&mut out, h.flags as u64, 2);
    bytes::push_le(&mut out, h.stored_len as u64, 4);
    bytes::push_le(&mut out, h.logical_len as u64, 4);
    bytes::push_le(&mut out, h.crc as u64, 4);
    out
}

pub fn parse_header(h: &[u8]) -> (r: Option<ParsedHeader>)
    ensures
        r == parsed_header(h@),
{
    if h.len() < HEADER_LEN {
        return None;
    }
    if h[0] != 0x4f || h[1] != 0x5a || h[2] != 0x42 || h[3] != 0x32 {
        proof {
            assert(h@.subrange(0, 4)[0] == h@[0]);
            assert(h@.subrange(0, 4)[1] == h@[1]);
            assert(h@.subrange(0, 4)[2] == h@[2]);
            assert(h@.subrange(0, 4)[3] == h@[3]);
        }
        return None;
    }
    assert(h@.subrange(0, 4) =~= seq![0x4fu8, 0x5a, 0x42, 0x32]);
    proof {
        bytes::lemma_pow256_values();
    }
    Some(
        ParsedHeader {
            key_len: bytes::read_le(h, 4, 2) as u16,
            flags: bytes::read_le(h, 6, 2) as u16,
            stored_len: bytes::read_le(h, 8, 4) as u32,
            logical_len: bytes::read_le(h, 12, 4) as u32,
            crc: bytes::read_le(h, 16, 4) as u32,
        },
    )
}

/// A written header reads back as itself, whatever follows it.
pub proof fn header_round_trip(h: ParsedHeader, rest: Seq<u8>)
    ensures
        h.encoded().len() == 20,
        parsed_header(h.encoded() + rest) == Some(h),
{
    bytes::lemma_pow256_values();
    bytes::lemma_le_round_trip(h.key_len as nat, 2);
    bytes::lemma_le_round_trip(h.flags as nat, 2);
    bytes::lemma_le_round_trip(h.stored_len as nat, 4);
    bytes::lemma_le_round_trip(h.logical_len as nat, 4);
    bytes::lemma_le_round_trip(h.crc as nat, 4);
    let b = h.encoded() + rest;
    assert(b.subrange(0, 4) =~= seq![0x4fu8, 0x5a, 0x42, 0x32]);
    assert(b.subrange(4, 6) =~= bytes::le_bytes(h.key_len as nat, 2));
    assert(b.subrange(6, 8) =~= bytes::le_bytes(h.flags as nat, 2));
    assert(b.subrange(8, 12) =~= bytes::le_bytes(h.stored_len as nat, 4));
    assert(b.subrange(12, 16) =~= bytes::le_bytes(h.logical_len as nat, 4));
    assert(b.subrange(16, 20) =~= bytes::le_bytes(h.crc as nat, 4));
}

/// A record found by a scan.
#[derive(Debug)]
pub struct RecoveredRecord {
    pub key: Vec<u8>,
    pub addr: RecordAddr,
    pub crc: u32,
    pub flags: u16,
    pub logical_len: u32,
    /// the body as stored
    pub stored: Vec<u8>,
}

/// A [`RecoveredRecord`] with its bytes taken by value.
pub ghost struct RecordView {
    pub key: Seq<u8>,
    pub addr: RecordAddr,
    pub crc: u32,
    pub flags: u16,
    pub logical_len: u32,
    pub stored: Seq<u8>,
}

impl View for RecoveredRecord {
    type V = RecordView;

    open spec fn view(&self) -> RecordView {
        RecordView {
            key: self.key@,
            addr: self.addr,
            crc: self.crc,
            flags: self.flags,
            logical_len: self.logical_len,
            stored: self.stored@,
        }
    }
}

/// The records of a vector taken by value.
pub open spec fn record_views(v: Seq<RecoveredRecord>) -> Seq<RecordView> {
    Seq::new(v.len(), |i: int| v[i]@)
}

/// The complete, intact record at the start of `buf`, said to lie at `offset`.
pub open spec fn record_at(buf: Seq<u8>, seg_id: u32, offset: int) -> Option<RecordView> {
    match parsed_header(buf) {
        None => None,
        Some(h) => {
            let key_end = 20 + h.key_len;
            let end = key_end + h.stored_len;
            if buf.len() < end || crc32(buf.subrange(20, end)) != h.crc {
                None
            } else {
                Some(
                    RecordView {
                        key: buf.subrange(20, key_end),
                        addr: RecordAddr {
                            seg_id,
                            offset: offset as u64,
                            stored_len: h.stored_len,
                            key_len: h.key_len,
                        },
                        crc: h.crc,
                        flags: h.flags,
                        logical_len: h.logical_len,
                        stored: buf.subrange(key_end, end),
                    },
                )
            }
        },
    }
}

/// The records of `buf` in order, up to the first that is incomplete or broken.
pub open spec fn scanned(buf: Seq<u8>, seg_id: u32, offset: int) -> Seq<RecordView>
    decreases buf.len(),
{
    match record_at(buf, seg_id, offset) {
        None => Seq::empty(),
        Some(r) => {
            let n = r.addr.total() as int;
            if 0 < n <= buf.len() {
                seq![r] + scanned(buf.skip(n), seg_id, offset + n)
            } else {
                Seq::empty()
            }
        },
    }
}

/// How many bytes of `buf` the records of a scan take.
pub open spec fn scanned_len(buf: Seq<u8>) -> nat
    decreases buf.len(),
{
    match record_at(buf, 0, 0) {
        None => 0,
        Some(r) => {
            let n = r.addr.total();
            if 0 < n <= buf.len() {
                n + scanned_len(buf.skip(n as int))
            } else {
                0
            }
        },
    }
}

/// Reads the record at the start of `buf`, if one stands there complete and
/// with a matching checksum.
pub fn scan_record(buf: &[u8], seg_id: u32, offset: u64) -> (r: Option<RecoveredRecord>)
    ensures
        r matches Some(x) ==> record_at(buf@, seg_id, offset as int) == Some(x@),
        r is None ==> record_at(buf@, seg_id, offset as int) is None,
{
    let h = match parse_header(buf) {
        Some(h) => h,
        None => {
            return None;
        },
    };
    let total: u64 = 20 + h.key_len as u64 + h.stored_len as u64;
    if (buf.len() as u64) < total {
        return None;
    }
    let key_end: usize = 20 + h.key_len as usize;
    let end: usize = total as usize;
    let key = bytes::copy_range(buf, HEADER_LEN, key_end);
    let stored = bytes::copy_range(buf, key_end, end);
    assert(key@ + stored@ =~= buf@.subrange(20, end as int));
    if checksum(key.as_slice(), stored.as_slice()) != h.crc {
        return None;
    }
    Some(
        RecoveredRecord {
            key,
            addr: RecordAddr { seg_id, offset, stored_len: h.stored_len, key_len: h.key_len },
            crc: h.crc,
            flags: h.flags,
            logical_len: h.logical_len,
            stored,
        },
    )
}

pub(crate) proof fn lemma_record_at_offset(buf: Seq<u8>, s1: u32, o1: int, s2: u32, o2: int)
    ensures
        record_at(buf, s1, o1) is Some <==> record_at(buf, s2, o2) is Some,
        record_at(buf, s1, o1) is Some ==> record_at(buf, s1, o1)->0.addr.total() == record_at(
            buf,
            s2,
            o2,
        )->0.addr.total(),
{
}

/// The records of a scan take no more than there is.
pub(crate) proof fn lemma_scanned_len(buf: Seq<u8>)
    ensures
        scanned_len(buf) <= buf.len(),
    decreases buf.len(),
{
    if let Some(r) = record_at(buf, 0, 0) {
        let n = r.addr.total() as int;
        if 0 < n <= buf.len() {
            lemma_scanned_len(buf.skip(n));
        }
    }
}

/// Scans `buf`, which starts at `offset` in its segment: the intact records in
/// order and how many bytes they take.
pub fn scan_segment(buf: &[u8], seg_id: u32, offset: u64) -> (r: (Vec<RecoveredRecord>, u64))
    requires
        offset + buf@.len() <= u64::MAX,
    ensures
        record_views(r.0@) == scanned(buf@, seg_id, offset as int),
        r.1 == scanned_len(buf@),
        r.1 <= buf@.len(),
{
    let mut out: Vec<RecoveredRecord> = Vec::new();
    let mut cur: usize = 0;
    let total_len: usize = buf.len();
    assert(buf@.skip(0) =~= buf@);
    assert(record_views(out@) =~= Seq::empty());
    assert(Seq::empty() + scanned(buf@, seg_id, offset as int) =~= scanned(
        buf@,
        seg_id,
        offset as int,
    ));
    loop
        invariant
            offset + buf@.len() <= u64::MAX,
            total_len == buf@.len(),
            cur <= buf@.len(),
            scanned(buf@, seg_id, offset as int) == record_views(out@) + scanned(
                buf@.skip(cur as int),
                seg_id,
                offset + cur,
            ),
            scanned_len(buf@) == cur + scanned_len(buf@.skip(cur as int)),
        ensures
            cur <= buf@.len(),
            record_at(buf@.skip(cur as int), seg_id, offset + cur) is None,
            scanned(buf@, seg_id, offset as int) == record_views(out@) + scanned(
                buf@.skip(cur as int),
                seg_id,
                offset + cur,
            ),
            scanned_len(buf@) == cur + scanned_len(buf@.skip(cur as int)),
        decreases buf@.len() - cur,
    {
        let rest = vstd::slice::slice_subrange(buf, cur, total_len);
        assert(rest@ =~= buf@.skip(cur as int));
        let ghost before = out@;
        match scan_record(rest, seg_id, offset + cur as u64) {
            Some(rec) => {
                let n: u64 = rec.addr.record_len();
                let ghost v = rec@;
                proof {
                    lemma_record_at_offset(rest@, seg_id, offset + cur, 0, 0);
                    assert(n <= rest@.len());
                    assert(rest@.skip(n as int) =~= buf@.skip(cur + n));
                }
                out.push(rec);
                assert(record_views(out@) =~= record_views(before) + seq![v]);
                cur = cur + n as usize;
                assert(record_views(before) + (seq![v] + scanned(
                    buf@.skip(cur as int),
                    seg_id,
                    offset + cur,
                )) =~= record_views(out@) + scanned(buf@.skip(cur as int), seg_id, offset + cur));
            },
            None => {
                break;
            },
        }
    }
    proof {
        lemma_record_at_offset(buf@.skip(cur as int), seg_id, offset + cur, 0, 0);
        assert(record_views(out@) + Seq::<RecordView>::empty() =~= record_views(out@));
    }
    (out, cur as u64)
}

/// A record about to be written.
pub ghost struct Entry {
    pub key: Seq<u8>,
    pub stored: Seq<u8>,
    pub logical_len: u32,
    pub flags: u16,
}

impl Entry {
    /// Key and body fit the length fields of the header.
    pub open spec fn fits(self) -> bool {
        self.key.len() < 0x1_0000 && self.stored.len() < 0x1_0000_0000
    }

    pub open spec fn header(self) -> ParsedHeader {
        ParsedHeader {
            key_len: self.key.len() as u16,
            flags: self.flags,
            stored_len: self.stored.len() as u32,
            logical_len: self.logical_len,
            crc: crc32(self.key + self.stored),
        }
    }

    /// The record as it is written.
    pub open spec fn encoded(self) -> Seq<u8> {
        self.header().encoded() + self.key + self.stored
    }

    /// The record as a scan reports it.
    pub open spec fn at(self, seg_id: u32, offset: int) -> RecordView {
        RecordView {
            key: self.key,
            addr: RecordAddr {
                seg_id,
                offset: offset as u64,
                stored_len: self.header().stored_len,
                key_len: self.header().key_len,
            },
            crc: self.header().crc,
            flags: self.flags,
            logical_len: self.logical_len,
            stored: self.stored,
        }
    }
}

/// Records written one after the other.
pub open spec fn log(entries: Seq<Entry>) -> Seq<u8>
    decreases entries.len(),
{
    if entries.len() == 0 {
        Seq::empty()
    } else {
        entries[0].encoded() + log(entries.skip(1))
    }
}

/// The same records as a scan reports them.
pub open spec fn log_views(entries: Seq<Entry>, seg_id: u32, offset: int) -> Seq<RecordView>
    decreases entries.len(),
{
    if entries.len() == 0 {
        Seq::empty()
    } else {
        seq![entries[0].at(seg_id, offset)] + log_views(
            entries.skip(1),
            seg_id,
            offset + entries[0].encoded().len(),
        )
    }
}

/// A written record is found again, whatever follows it.
pub proof fn record_reads_back(e: Entry, rest: Seq<u8>, seg_id: u32, offset: int)
    requires
        e.fits(),
    ensures
        e.encoded().len() == 20 + e.key.len() + e.stored.len(),
        record_at(e.encoded() + rest, seg_id, offset) == Some(e.at(seg_id, offset)),
        (e.encoded() + rest).skip(e.encoded().len() as int) == rest,
{
    let h = e.header();
    let b = e.encoded() + rest;
    header_round_trip(h, e.key + e.stored + rest);
    assert(b =~= h.encoded() + (e.key + e.stored + rest));
    let ke = 20 + h.key_len;
    let end = ke + h.stored_len;
    assert(b.subrange(20, end) =~= e.key + e.stored);
    assert(b.subrange(20, ke) =~= e.key);
    assert(b.subrange(ke, end) =~= e.stored);
    assert(b.skip(e.encoded().len() as int) =~= rest);
}

/// A record cut short anywhere is not taken for a record.
pub proof fn torn_record_is_refused(e: Entry, n: int, seg_id: u32, offset: int)
    requires
        e.fits(),
        0 <= n < e.encoded().len(),
    ensures
        record_at(e.encoded().subrange(0, n), seg_id, offset) is None,
{
    record_reads_back(e, Seq::empty(), seg_id, offset);
    let t = e.encoded().subrange(0, n);
    if n >= 20 {
        let h = e.header();
        header_round_trip(h, t.skip(20));
        assert(t =~= h.encoded() + t.skip(20));
    }
}

/// A scan of a log returns the log's records in order and stops where something
/// follows that is no record.
pub proof fn scan_of_log(entries: Seq<Entry>, tail: Seq<u8>, seg_id: u32, offset: int)
    requires
        forall|i: int| 0 <= i < entries.len() ==> (#[trigger] entries[i]).fits(),
        record_at(tail, 0, 0) is None,
    ensures
        scanned(log(entries) + tail, seg_id, offset) == log_views(entries, seg_id, offset),
        scanned_len(log(entries) + tail) == log(entries).len(),
    decreases entries.len(),
{
    let b = log(entries) + tail;
    if entries.len() == 0 {
        assert(b =~= tail);
        lemma_record_at_offset(tail, seg_id, offset, 0, 0);
    } else {
        let e = entries[0];
        let rest = log(entries.skip(1)) + tail;
        assert(e.fits());
        assert forall|i: int| 0 <= i < entries.skip(1).len() implies (#[trigger] entries.skip(
            1,
        )[i]).fits() by {
            assert(entries.skip(1)[i] == entries[i + 1]);
        }
        record_reads_back(e, rest, seg_id, offset);
        record_reads_back(e, rest, 0, 0);
        assert(b =~= e.encoded() + rest);
        scan_of_log(entries.skip(1), tail, seg_id, offset + e.encoded().len());
    }
}

/// Recovery after a crash in the middle of a write: all complete records are
/// found, the torn one is dropped.
pub proof fn torn_tail_is_dropped(entries: Seq<Entry>, torn: Entry, n: int, seg_id: u32, offset: int)
    requires
        forall|i: int| 0 <= i < entries.len() ==> (#[trigger] entries[i]).fits(),
        torn.fits(),
        0 <= n < torn.encoded().len(),
    ensures
        scanned(log(entries) + torn.encoded().subrange(0, n), seg_id, offset) == log_views(
            entries,
            seg_id,
            offset,
        ),
{
    torn_record_is_refused(torn, n, 0, 0);
    scan_of_log(entries, torn.encoded().subrange(0, n), seg_id, offset);
}

/// Why a record could not be read.
#[derive(Clone, Copy, Debug, PartialEq, Eq, Structural)]
pub enum ReadFault {
    /// the segment ends before the record does
    Short,
    /// the checksum differs from the index row's
    CrcMismatch,
}

/// The text of a checksum failure.
pub fn crc_mismatch_text() -> (r: String)
    ensures
        r@ == "segment record crc mismatch (bitrot?)"@,
{
    "segment record crc mismatch (bitrot?)".to_owned()
}

/// Takes the stored body out of a record's bytes, checking it against the
/// checksum of the index row.
pub fn read_record(buf: &[u8], addr: &RecordAddr, expect_crc: u32) -> (r: Result<
    Vec<u8>,
    ReadFault,
>)
    ensures
        buf@.len() < addr.total() ==> r == Err::<Vec<u8>, ReadFault>(ReadFault::Short),
        buf@.len() >= addr.total() ==> {
            let end = addr.total() as int;
            if crc32(buf@.subrange(20, end)) == expect_crc {
                r matches Ok(v) && v@ == buf@.subrange(20 + addr.key_len, end)
            } else {
                r == Err::<Vec<u8>, ReadFault>(ReadFault::CrcMismatch)
            }
        },
{
    let total: u64 = addr.record_len();
    if (buf.len() as u64) < total {
        return Err(ReadFault::Short);
    }
    let key_end: usize = 20 + addr.key_len as usize;
    let end: usize = total as usize;
    let key = bytes::copy_range(buf, HEADER_LEN, key_end);
    let stored = bytes::copy_range(buf, key_end, end);
    assert(key@ + stored@ =~= buf@.subrange(20, end as int));
    if checksum(key.as_slice(), stored.as_slice()) != expect_crc {
        return Err(ReadFault::CrcMismatch);
    }
    Ok(stored)
}

/// The bytes at a record's address hold the body that was appended, under the
/// checksum that was returned.
pub proof fn appended_record_holds_body(before: Seq<u8>, e: Entry, after: Seq<u8>, seg_id: u32)
    requires
        e.fits(),
        before.len() <= u64::MAX,
    ensures
        ({
            let file = before + e.encoded() + after;
            let r = e.at(seg_id, before.len() as int);
            let at = r.addr.offset as int;
            let buf = file.subrange(at, at + r.addr.total());
            &&& buf.len() == r.addr.total()
            &&& crc32(buf.subrange(20, buf.len() as int)) == r.crc
            &&& buf.subrange(20 + r.addr.key_len, buf.len() as int) == e.stored
        }),
{
    record_reads_back(e, Seq::empty(), seg_id, before.len() as int);
    let file = before + e.encoded() + after;
    let r = e.at(seg_id, before.len() as int);
    let at = r.addr.offset as int;
    let buf = file.subrange(at, at + r.addr.total());
    header_round_trip(e.header(), e.key + e.stored);
    assert(buf =~= e.encoded());
    assert(buf.subrange(20, buf.len() as int) =~= e.key + e.stored);
    assert(buf.subrange(20 + r.addr.key_len, buf.len() as int) =~= e.stored);
}

/// The state of the active segment.
#[derive(Clone, Copy, Debug, PartialEq, Eq, Structural)]
pub struct SegmentWriter {
    /// a spare directory is configured
    pub has_failover: bool,
    pub seg_id: u32,
    pub len: u64,
    /// length known to be durable
    pub flush_offset: u64,
    pub unflushed_items: u32,
    pub max_size: u64,
    pub fsync_items: u32,
    /// the active segment lies in the spare directory
    pub failed_over: bool,
    pub drop_cache: bool,
}

/// What the writer is waiting for while it appends a record.
#[derive(Clone, Copy, Debug, PartialEq, Eq, Structural)]
pub enum AppendPhase {
    /// nothing done yet
    Start,
    /// sync of the full segment
    RotateSync,
    /// meta file of the full segment
    RotateMeta,
    /// next segment in the primary directory
    RotatePrimary,
    /// next segment in the spare directory
    RotateFailover,
    /// the record
    Write,
    /// sync after the record
    FlushSync,
    /// meta file after the record
    FlushMeta,
    /// emergency segment in the spare directory
    RetryFailover,
    /// the record, again
    RetryWrite,
    /// sync after the repeated record
    RetrySync,
    /// meta file after the repeated record
    RetryMeta,
    /// the record is in place
    Done,
    /// the append failed
    Failed,
}

/// What has to be done next.
#[derive(Clone, Copy, Debug, PartialEq, Eq, Structural)]
pub enum AppendAction {
    /// sync the active file
    Sync,
    /// write the meta file, then drop the first bytes from the page cache
    WriteMeta { seg_id: u32, flush_offset: u64, drop_to: u64 },
    /// create the segment in the primary directory, with its meta file; sync
    /// the old file first as far as that works
    OpenPrimary { seg_id: u32, sync_first: bool },
    /// the same in the spare directory
    OpenFailover { seg_id: u32 },
    /// write the staged record at the end of the active file
    Write,
    /// nothing: the record is in place
    Finish,
    /// nothing: report the last error
    Fail,
}

impl SegmentWriter {
    pub open spec fn wf(self) -> bool {
        self.flush_offset <= self.len
    }

    /// Something is not durable yet.
    pub open spec fn dirty(self) -> bool {
        !(self.flush_offset == self.len && self.unflushed_items == 0)
    }

    /// How much of the durable part may leave the page cache.
    pub open spec fn cold_len(self) -> u64 {
        if self.drop_cache && self.flush_offset > KEEP_HOT_TAIL {
            (self.flush_offset - KEEP_HOT_TAIL) as u64
        } else {
            0
        }
    }

    /// After a sync.
    pub open spec fn synced(self) -> SegmentWriter {
        SegmentWriter { flush_offset: self.len, unflushed_items: 0, ..self }
    }

    /// After a record of `n` bytes.
    pub open spec fn grown(self, n: nat) -> SegmentWriter {
        SegmentWriter {
            len: (self.len + n) as u64,
            unflushed_items: (self.unflushed_items + 1) as u32,
            ..self
        }
    }

    /// On a fresh segment.
    pub open spec fn installed(self, failed_over: bool) -> SegmentWriter {
        SegmentWriter {
            seg_id: (self.seg_id + 1) as u32,
            failed_over,
            len: 0,
            flush_offset: 0,
            unflushed_items: 0,
            ..self
        }
    }

    pub open spec fn meta_action(self) -> AppendAction {
        AppendAction::WriteMeta {
            seg_id: self.seg_id,
            flush_offset: self.flush_offset,
            drop_to: self.cold_len(),
        }
    }

    /// One step of an append: the last action went well or not.
    pub open spec fn append_next(self, phase: AppendPhase, ok: bool, n: nat) -> (
        SegmentWriter,
        AppendPhase,
        AppendAction,
    ) {
        let next = (self.seg_id + 1) as u32;
        let open_primary = |sync_first: bool|
            (
                self,
                AppendPhase::RotatePrimary,
                AppendAction::OpenPrimary { seg_id: next, sync_first },
            );
        let fail = (self, AppendPhase::Failed, AppendAction::Fail);
        let after_write = |w: SegmentWriter, sync: AppendPhase|
            if w.unflushed_items >= w.fsync_items {
                (w, sync, AppendAction::Sync)
            } else {
                (w, AppendPhase::Done, AppendAction::Finish)
            };
        match phase {
            AppendPhase::Start => if self.len < self.max_size {
                (self, AppendPhase::Write, AppendAction::Write)
            } else if self.dirty() {
                (self, AppendPhase::RotateSync, AppendAction::Sync)
            } else {
                open_primary(false)
            },
            AppendPhase::RotateSync => if ok {
                (self.synced(), AppendPhase::RotateMeta, self.synced().meta_action())
            } else if self.has_failover {
                open_primary(true)
            } else {
                fail
            },
            AppendPhase::RotateMeta => if ok {
                open_primary(false)
            } else if self.has_failover {
                open_primary(true)
            } else {
                fail
            },
            AppendPhase::RotatePrimary => if ok {
                (self.installed(false), AppendPhase::Write, AppendAction::Write)
            } else if self.has_failover {
                (
                    self,
                    AppendPhase::RotateFailover,
                    AppendAction::OpenFailover { seg_id: next },
                )
            } else {
                fail
            },
            AppendPhase::RotateFailover => if ok {
                (self.installed(true), AppendPhase::Write, AppendAction::Write)
            } else {
                fail
            },
            AppendPhase::Write => if ok {
                after_write(self.grown(n), AppendPhase::FlushSync)
            } else if self.has_failover && !self.failed_over {
                (self, AppendPhase::RetryFailover, AppendAction::OpenFailover { seg_id: next })
            } else {
                fail
            },
            AppendPhase::FlushSync => if ok {
                (self.synced(), AppendPhase::FlushMeta, self.synced().meta_action())
            } else if self.has_failover && !self.failed_over {
                (self, AppendPhase::RetryFailover, AppendAction::OpenFailover { seg_id: next })
            } else {
                fail
            },
            AppendPhase::FlushMeta => if ok {
                (self, AppendPhase::Done, AppendAction::Finish)
            } else if self.has_failover && !self.failed_over {
                (self, AppendPhase::RetryFailover, AppendAction::OpenFailover { seg_id: next })
            } else {
                fail
            },
            AppendPhase::RetryFailover => if ok {
                (self.installed(true), AppendPhase::RetryWrite, AppendAction::Write)
            } else {
                fail
            },
            AppendPhase::RetryWrite => if ok {
                after_write(self.grown(n), AppendPhase::RetrySync)
            } else {
                fail
            },
            AppendPhase::RetrySync => if ok {
                (self.synced(), AppendPhase::RetryMeta, self.synced().meta_action())
            } else {
                fail
            },
            AppendPhase::RetryMeta => if ok {
                (self, AppendPhase::Done, AppendAction::Finish)
            } else {
                fail
            },
            AppendPhase::Done => (self, AppendPhase::Done, AppendAction::Finish),
            AppendPhase::Failed => fail,
        }
    }

    /// Whether there is anything to flush.
    pub fn needs_flush(&self) -> (r: bool)
        ensures
            r == self.dirty(),
    {
        !(self.flush_offset == self.len && self.unflushed_items == 0)
    }

    fn meta_of(&self) -> (r: AppendAction)
        ensures
            r == self.meta_action(),
    {
        let drop_to: u64 = if self.drop_cache && self.flush_offset > KEEP_HOT_TAIL {
            self.flush_offset - KEEP_HOT_TAIL
        } else {
            0
        };
        AppendAction::WriteMeta { seg_id: self.seg_id, flush_offset: self.flush_offset, drop_to }
    }

    /// Notes that the active file was synced; the meta file is written next.
    pub fn flush(&mut self) -> (r: AppendAction)
        ensures
            *final(self) == old(self).synced(),
            r == final(self).meta_action(),
            final(self).wf(),
            !final(self).dirty(),
    {
        self.flush_offset = self.len;
        self.unflushed_items = 0;
        self.meta_of()
    }

    fn install(&mut self, failed_over: bool)
        requires
            old(self).seg_id < u32::MAX,
        ensures
            *final(self) == old(self).installed(failed_over),
    {
        self.seg_id = self.seg_id + 1;
        self.failed_over = failed_over;
        self.len = 0;
        self.flush_offset = 0;
        self.unflushed_items = 0;
    }

    fn written(&mut self, n: u64, sync: AppendPhase) -> (r: (AppendPhase, AppendAction))
        requires
            old(self).len + n <= u64::MAX,
            old(self).unflushed_items < u32::MAX,
        ensures
            *final(self) == old(self).grown(n as nat),
            r == (if final(self).unflushed_items >= final(self).fsync_items {
                (sync, AppendAction::Sync)
            } else {
                (AppendPhase::Done, AppendAction::Finish)
            }),
    {
        self.len = self.len + n;
        self.unflushed_items = self.unflushed_items + 1;
        if self.unflushed_items >= self.fsync_items {
            (sync, AppendAction::Sync)
        } else {
            (AppendPhase::Done, AppendAction::Finish)
        }
    }

    /// Advances an append of a record of `n` bytes after its last action.
    ///
    /// A full segment is rotated first, always to the primary directory if that
    /// works.  A failed write is repeated once, on a fresh segment in the spare
    /// directory.
    pub fn append_with_flags(&mut self, phase: AppendPhase, ok: bool, n: u64) -> (r: (
        AppendPhase,
        AppendAction,
    ))
        requires
            old(self).seg_id < u32::MAX,
            old(self).len + n <= u64::MAX,
            old(self).unflushed_items < u32::MAX,
        ensures
            (*final(self), r.0, r.1) == old(self).append_next(phase, ok, n as nat),
            old(self).wf() ==> final(self).wf(),
    {
        let next: u32 = self.seg_id + 1;
        match phase {
            AppendPhase::Start => {
                if self.len < self.max_size {
                    (AppendPhase::Write, AppendAction::Write)
                } else if self.needs_flush() {
                    (AppendPhase::RotateSync, AppendAction::Sync)
                } else {
                    (
                        AppendPhase::RotatePrimary,
                        AppendAction::OpenPrimary { seg_id: next, sync_first: false },
                    )
                }
            },
            AppendPhase::RotateSync => {
                if ok {
                    let a = self.flush();
                    (AppendPhase::RotateMeta, a)
                } else if self.has_failover {
                    (
                        AppendPhase::RotatePrimary,
                        AppendAction::OpenPrimary { seg_id: next, sync_first: true },
                    )
                } else {
                    (AppendPhase::Failed, AppendAction::Fail)
                }
            },
            AppendPhase::RotateMeta => {
                if ok {
                    (
                        AppendPhase::RotatePrimary,
                        AppendAction::OpenPrimary { seg_id: next, sync_first: false },
                    )
                } else if self.has_failover {
                    (
                        AppendPhase::RotatePrimary,
                        AppendAction::OpenPrimary { seg_id: next, sync_first: true },
                    )
                } else {
                    (AppendPhase::Failed, AppendAction::Fail)
                }
            },
            AppendPhase::RotatePrimary => {
                if ok {
                    self.install(false);
                    (AppendPhase::Write, AppendAction::Write)
                } else if self.has_failover {
                    (AppendPhase::RotateFailover, AppendAction::OpenFailover { seg_id: next })
                } else {
                    (AppendPhase::Failed, AppendAction::Fail)
                }
            },
            AppendPhase::RotateFailover => {
                if ok {
                    self.install(true);
                    (AppendPhase::Write, AppendAction::Write)
                } else {
                    (AppendPhase::Failed, AppendAction::Fail)
                }
            },
            AppendPhase::Write => {
                if ok {
                    self.written(n, AppendPhase::FlushSync)
                } else if self.has_failover && !self.failed_over {
                    (AppendPhase::RetryFailover, AppendAction::OpenFailover { seg_id: next })
                } else {
                    (AppendPhase::Failed, AppendAction::Fail)
                }
            },
            AppendPhase::FlushSync => {
                if ok {
                    let a = self.flush();
                    (AppendPhase::FlushMeta, a)
                } else if self.has_failover && !self.failed_over {
                    (AppendPhase::RetryFailover, AppendAction::OpenFailover { seg_id: next })
                } else {
                    (AppendPhase::Failed, AppendAction::Fail)
                }
            },
            AppendPhase::FlushMeta => {
                if ok {
                    (AppendPhase::Done, AppendAction::Finish)
                } else if self.has_failover && !self.failed_over {
                    (AppendPhase::RetryFailover, AppendAction::OpenFailover { seg_id: next })
                } else {
                    (AppendPhase::Failed, AppendAction::Fail)
                }
            },
            AppendPhase::RetryFailover => {
                if ok {
                    self.install(true);
                    (AppendPhase::RetryWrite, AppendAction::Write)
                } else {
                    (AppendPhase::Failed, AppendAction::Fail)
                }
            },
            AppendPhase::RetryWrite => {
                if ok {
                    self.written(n, AppendPhase::RetrySync)
                } else {
                    (AppendPhase::Failed, AppendAction::Fail)
                }
            },
            AppendPhase::RetrySync => {
                if ok {
                    let a = self.flush();
                    (AppendPhase::RetryMeta, a)
                } else {
                    (AppendPhase::Failed, AppendAction::Fail)
                }
            },
            AppendPhase::RetryMeta => {
                if ok {
                    (AppendPhase::Done, AppendAction::Finish)
                } else {
                    (AppendPhase::Failed, AppendAction::Fail)
                }
            },
            AppendPhase::Done => (AppendPhase::Done, AppendAction::Finish),
            AppendPhase::Failed => (AppendPhase::Failed, AppendAction::Fail),
        }
    }

    /// The bytes of a record, and the address and checksum it gets when it is
    /// written at the end of the active segment; none where the header has no room
    /// for the length of the key or of the body.
    pub fn write_record(&self, key: &[u8], stored: &[u8], logical_len: u32, flags: u16) -> (r: Option<
        (Vec<u8>, RecordAddr, u32),
    >)
        ensures
            ({
                let e = Entry { key: key@, stored: stored@, logical_len, flags };
                match r {
                    Some(x) => {
                        &&& e.fits()
                        &&& x.0@ == e.encoded()
                        &&& x.1 == e.at(self.seg_id, self.len as int).addr
                        &&& x.2 == e.header().crc
                    },
                    None => !e.fits(),
                }
            }),
    {
        if key.len() as u64 >= 0x1_0000 || stored.len() as u64 >= 0x1_0000_0000 {
            return None;
        }
        let crc: u32 = checksum(key, stored);
        let key_len: u16 = key.len() as u16;
        let stored_len: u32 = stored.len() as u32;
        let h = ParsedHeader { key_len, flags, stored_len, logical_len, crc };
        let mut out = encode_header(&h);
        bytes::push_all(&mut out, key);
        bytes::push_all(&mut out, stored);
        Some((out, RecordAddr { seg_id: self.seg_id, offset: self.len, stored_len, key_len }, crc))
    }

    /// The same for a body that is not compressed.
    pub fn append(&self, key: &[u8], data: &[u8]) -> (r: Option<(Vec<u8>, RecordAddr, u32)>)
        ensures
            ({
                let e = Entry {
                    key: key@,
                    stored: data@,
                    logical_len: data@.len() as u32,
                    flags: 0,
                };
                match r {
                    Some(x) => {
                        &&& e.fits()
                        &&& x.0@ == e.encoded()
                        &&& x.1 == e.at(self.seg_id, self.len as int).addr
                        &&& x.2 == e.header().crc
                    },
                    None => !e.fits(),
                }
            }),
    {
        if data.len() as u64 >= 0x1_0000_0000 {
            return None;
        }
        self.write_record(key, data, data.len() as u32, 0)
    }
}

/// How far an append is from its end.
pub open spec fn append_rank(phase: AppendPhase) -> nat {
    match phase {
        AppendPhase::Start => 12,
        AppendPhase::RotateSync => 11,
        AppendPhase::RotateMeta => 10,
        AppendPhase::RotatePrimary => 9,
        AppendPhase::RotateFailover => 8,
        AppendPhase::Write => 7,
        AppendPhase::FlushSync => 6,
        AppendPhase::FlushMeta => 5,
        AppendPhase::RetryFailover => 4,
        AppendPhase::RetryWrite => 3,
        AppendPhase::RetrySync => 2,
        AppendPhase::RetryMeta => 1,
        AppendPhase::Done => 0,
        AppendPhase::Failed => 0,
    }
}

/// Every append ends: each step brings it closer to its end, so a record is
/// written at most twice.
pub proof fn append_ends(w: SegmentWriter, phase: AppendPhase, ok: bool, n: nat)
    requires
        append_rank(phase) > 0,
    ensures
        append_rank(w.append_next(phase, ok, n).1) < append_rank(phase),
{
}

/// Segment numbers never go down, and a step moves on by at most one segment.
pub proof fn segments_only_advance(w: SegmentWriter, phase: AppendPhase, ok: bool, n: nat)
    requires
        w.seg_id < u32::MAX,
    ensures
        w.seg_id <= w.append_next(phase, ok, n).0.seg_id <= w.seg_id + 1,
{
}

/// A rotation that reaches the primary directory leaves the spare one.
pub proof fn rotation_fails_back(w: SegmentWriter, n: nat)
    requires
        w.seg_id < u32::MAX,
    ensures
        ({
            let s = w.append_next(AppendPhase::RotatePrimary, true, n).0;
            !s.failed_over && s.len == 0 && s.seg_id == w.seg_id + 1
        }),
{
}

/// Without a spare directory no step ever leaves the primary one.
pub proof fn no_spare_no_failover(w: SegmentWriter, phase: AppendPhase, ok: bool, n: nat)
    requires
        !w.has_failover,
        !w.failed_over,
        !(phase is RotateFailover),
        !(phase is RetryFailover),
    ensures
        ({
            let s = w.append_next(phase, ok, n);
            !s.0.failed_over && !s.0.has_failover && !(s.1 is RotateFailover) && !(
            s.1 is RetryFailover)
        }),
{
}

/// The active segment after a restart.
#[derive(Clone, Copy, Debug, PartialEq, Eq, Structural)]
pub struct ActiveSegment {
    pub on_failover: bool,
    pub seg_id: u32,
    pub flush_offset: u64,
}

/// Of the two meta files the one with the larger segment number wins; the
/// primary one on a tie.
pub open spec fn chosen_segment(primary: Option<(u32, u64)>, failover: Option<(u32, u64)>) -> ActiveSegment {
    match (primary, failover) {
        (Some(p), Some(f)) => if f.0 > p.0 {
            ActiveSegment { on_failover: true, seg_id: f.0, flush_offset: f.1 }
        } else {
            ActiveSegment { on_failover: false, seg_id: p.0, flush_offset: p.1 }
        },
        (Some(p), None) => ActiveSegment { on_failover: false, seg_id: p.0, flush_offset: p.1 },
        (None, Some(f)) => ActiveSegment { on_failover: true, seg_id: f.0, flush_offset: f.1 },
        (None, None) => ActiveSegment { on_failover: false, seg_id: 0, flush_offset: 0 },
    }
}

pub fn choose_active(primary: Option<(u32, u64)>, failover: Option<(u32, u64)>) -> (r: ActiveSegment)
    ensures
        r == chosen_segment(primary, failover),
{
    match (primary, failover) {
        (Some(p), Some(f)) => {
            if f.0 > p.0 {
                ActiveSegment { on_failover: true, seg_id: f.0, flush_offset: f.1 }
            } else {
                ActiveSegment { on_failover: false, seg_id: p.0, flush_offset: p.1 }
            }
        },
        (Some(p), None) => ActiveSegment { on_failover: false, seg_id: p.0, flush_offset: p.1 },
        (None, Some(f)) => ActiveSegment { on_failover: true, seg_id: f.0, flush_offset: f.1 },
        (None, None) => ActiveSegment { on_failover: false, seg_id: 0, flush_offset: 0 },
    }
}

/// A segment opened after a restart.
#[derive(Debug)]
pub struct Opened {
    pub writer: SegmentWriter,
    /// records behind the durable part, to be put into the index
    pub recovered: Vec<RecoveredRecord>,
    /// the file is cut to this length
    pub truncate_to: Option<u64>,
}

impl SegmentWriter {
    /// Opens the active segment.  `tail` holds the file's bytes behind the
    /// durable part (none when the file is not longer than that).
    pub fn open(
        active: &ActiveSegment,
        tail: &[u8],
        has_failover: bool,
        max_size: u64,
        fsync_items: u32,
        drop_cache: bool,
    ) -> (r: Opened)
        requires
            active.flush_offset + tail@.len() <= u64::MAX,
        ensures
            record_views(r.recovered@) == scanned(
                tail@,
                active.seg_id,
                active.flush_offset as int,
            ),
            r.writer == (SegmentWriter {
                has_failover,
                seg_id: active.seg_id,
                len: (active.flush_offset + scanned_len(tail@)) as u64,
                flush_offset: (active.flush_offset + scanned_len(tail@)) as u64,
                unflushed_items: 0,
                max_size,
                fsync_items,
                failed_over: active.on_failover,
                drop_cache,
            }),
            r.truncate_to == (if scanned_len(tail@) < tail@.len() {
                Some((active.flush_offset + scanned_len(tail@)) as u64)
            } else {
                None
            }),
            r.writer.wf(),
            !r.writer.dirty(),
    {
        let (recovered, n) = scan_segment(tail, active.seg_id, active.flush_offset);
        let len: u64 = active.flush_offset + n;
        let truncate_to: Option<u64> = if n < tail.len() as u64 {
            Some(len)
        } else {
            None
        };
        Opened {
            writer: SegmentWriter {
                has_failover,
                seg_id: active.seg_id,
                len,
                flush_offset: len,
                unflushed_items: 0,
                max_size,
                fsync_items,
                failed_over: active.on_failover,
                drop_cache,
            },
            recovered,
            truncate_to,
        }
    }
}

/// A record goes to the end of the active segment while that is not full; a full one is made
/// durable and followed by the next.
pub proof fn full_segments_are_followed(w: SegmentWriter, n: nat, ok: bool)
    requires
        w.seg_id < u32::MAX,
    ensures
        w.len < w.max_size ==> w.append_next(AppendPhase::Start, ok, n) == (
            w,
            AppendPhase::Write,
            AppendAction::Write,
        ),
        w.len >= w.max_size && (w.flush_offset != w.len || w.unflushed_items > 0)
            ==> w.append_next(AppendPhase::Start, ok, n) == (
            w,
            AppendPhase::RotateSync,
            AppendAction::Sync,
        ),
        w.len >= w.max_size && w.flush_offset == w.len && w.unflushed_items == 0 ==> ({
            let (s, _, a) = w.append_next(AppendPhase::Start, ok, n);
            s == w && a == (AppendAction::OpenPrimary {
                seg_id: (w.seg_id + 1) as u32,
                sync_first: false,
            })
        }),
        w.append_next(AppendPhase::RotateMeta, true, n).2 == (AppendAction::OpenPrimary {
            seg_id: (w.seg_id + 1) as u32,
            sync_first: false,
        }),
{
}

/// A written record lengthens the segment by its bytes, whatever their number, and is synced
/// as soon as enough records wait for it.
pub proof fn records_lengthen_the_segment(w: SegmentWriter, phase: AppendPhase, n: nat)
    requires
        phase is Write || phase is RetryWrite,
        w.len + n <= u64::MAX,
        w.unflushed_items < u32::MAX,
    ensures
        ({
            let (s, p, a) = w.append_next(phase, true, n);
            &&& s.len == w.len + n && s.unflushed_items == w.unflushed_items + 1
            &&& s.seg_id == w.seg_id && s.flush_offset == w.flush_offset && s.failed_over
                == w.failed_over
            &&& w.unflushed_items + 1 >= w.fsync_items ==> a is Sync && (p is FlushSync
                || p is RetrySync)
            &&& w.unflushed_items + 1 < w.fsync_items ==> a is Finish && p is Done
        }),
{
}

/// After a sync all of the segment is durable, and the meta file says so; the cache drops all
/// but the last eight MiB of it where that is wanted.
pub proof fn syncs_are_recorded(w: SegmentWriter, phase: AppendPhase, n: nat)
    requires
        phase is RotateSync || phase is FlushSync || phase is RetrySync,
    ensures
        ({
            let (s, p, a) = w.append_next(phase, true, n);
            &&& s == (SegmentWriter { flush_offset: w.len, unflushed_items: 0, ..w })
            &&& (a matches AppendAction::WriteMeta { seg_id, flush_offset, drop_to } && {
                &&& seg_id == w.seg_id
                &&& flush_offset == w.len
                &&& drop_to == if w.drop_cache && w.len > 8 * 1024 * 1024 {
                    w.len - 8 * 1024 * 1024
                } else {
                    0
                }
            })
            &&& w.append_next(AppendPhase::FlushMeta, true, n).2 is Finish && w.append_next(
                AppendPhase::RetryMeta,
                true,
                n,
            ).2 is Finish
        }),
{
}

/// A record that cannot be written, synced or noted on the primary disk is written once more,
/// to a fresh segment on the spare one; without a spare, or on it already, the append fails.
pub proof fn failures_go_to_the_spare(w: SegmentWriter, phase: AppendPhase, n: nat)
    requires
        phase is Write || phase is FlushSync || phase is FlushMeta,
        w.seg_id < u32::MAX,
    ensures
        w.has_failover && !w.failed_over ==> w.append_next(phase, false, n) == (
            w,
            AppendPhase::RetryFailover,
            AppendAction::OpenFailover { seg_id: (w.seg_id + 1) as u32 },
        ),
        !w.has_failover || w.failed_over ==> w.append_next(phase, false, n).2 is Fail,
        ({
            let (s, p, a) = w.append_next(AppendPhase::RetryFailover, true, n);
            &&& s.seg_id == w.seg_id + 1 && s.len == 0 && s.flush_offset == 0 && s.unflushed_items
                == 0 && s.failed_over
            &&& p is RetryWrite && a is Write
        }),
        w.append_next(AppendPhase::RetryFailover, false, n).2 is Fail,
        w.append_next(AppendPhase::RetryWrite, false, n).2 is Fail,
        w.append_next(AppendPhase::RetrySync, false, n).2 is Fail,
        w.append_next(AppendPhase::RetryMeta, false, n).2 is Fail,
{
}

/// A rotation that fails on the primary disk goes to the spare one, where there is one.
pub proof fn rotations_fail_over(w: SegmentWriter, n: nat)
    requires
        w.seg_id < u32::MAX,
    ensures
        w.has_failover ==> w.append_next(AppendPhase::RotatePrimary, false, n).2 == (
        AppendAction::OpenFailover { seg_id: (w.seg_id + 1) as u32 }),
        !w.has_failover ==> w.append_next(AppendPhase::RotatePrimary, false, n).2 is Fail,
        w.has_failover ==> w.append_next(AppendPhase::RotateSync, false, n).2 == (
        AppendAction::OpenPrimary { seg_id: (w.seg_id + 1) as u32, sync_first: true }),
        !w.has_failover ==> w.append_next(AppendPhase::RotateSync, false, n).2 is Fail,
        ({
            let (s, p, a) = w.append_next(AppendPhase::RotateFailover, true, n);
            s.seg_id == w.seg_id + 1 && s.len == 0 && s.failed_over && p is Write && a is Write
        }),
        w.append_next(AppendPhase::RotateFailover, false, n).2 is Fail,
{
}

/// A record is its header, its key and its body, all of them whole, and lies where the segment
/// ended; only a key or a body that is too long for the header has no record.
pub proof fn records_are_written_whole(
    w: &SegmentWriter,
    key: &[u8],
    stored: &[u8],
    logical_len: u32,
    flags: u16,
    r: Option<(Vec<u8>, RecordAddr, u32)>,
)
    requires
        call_ensures(SegmentWriter::write_record, (w, key, stored, logical_len, flags), r),
    ensures
        r is None <==> key@.len() >= 0x1_0000 || stored@.len() >= 0x1_0000_0000,
        r matches Some((bytes, addr, crc)) ==> {
            &&& bytes@.len() == 20 + key@.len() + stored@.len()
            &&& bytes@.skip(20) == key@ + stored@
            &&& addr.seg_id == w.seg_id && addr.offset == w.len
            &&& addr.key_len == key@.len() && addr.stored_len == stored@.len()
            &&& crc == crc32(key@ + stored@)
            &&& parsed_header(bytes@) == Some(
                ParsedHeader {
                    key_len: addr.key_len,
                    flags,
                    stored_len: addr.stored_len,
                    logical_len,
                    crc,
                },
            )
        },
{
    if r is Some {
        let e = Entry { key: key@, stored: stored@, logical_len, flags };
        let h = e.header();
        let b = e.encoded();
        header_round_trip(h, key@ + stored@);
        assert(b =~= h.encoded() + (key@ + stored@));
        assert(h.encoded().len() == 20) by {
            bytes::lemma_le_bytes_len(h.key_len as nat, 2);
            bytes::lemma_le_bytes_len(h.flags as nat, 2);
            bytes::lemma_le_bytes_len(h.stored_len as nat, 4);
            bytes::lemma_le_bytes_len(h.logical_len as nat, 4);
            bytes::lemma_le_bytes_len(h.crc as nat, 4);
        }
        assert(b.skip(20) =~= key@ + stored@);
    }
}

/// The body of a record is read back whole, at any length, under the checksum of its key and
/// body, and not at all under another one or where bytes are missing.
pub proof fn records_are_read_whole(
    buf: &[u8],
    addr: &RecordAddr,
    crc: u32,
    head: Seq<u8>,
    key: Seq<u8>,
    stored: Seq<u8>,
    rest: Seq<u8>,
    r: Result<Vec<u8>, ReadFault>,
)
    requires
        call_ensures(read_record, (buf, addr, crc), r),
        head.len() == 20,
        key.len() == addr.key_len,
        stored.len() == addr.stored_len,
    ensures
        buf@ == head + key + stored + rest && crc == crc32(key + stored) ==> (r matches Ok(v) && v@
            == stored),
        buf@ == head + key + stored + rest && crc != crc32(key + stored) ==> r == Err::<
            Vec<u8>,
            ReadFault,
        >(ReadFault::CrcMismatch),
        buf@.len() < 20 + addr.key_len + addr.stored_len ==> r == Err::<Vec<u8>, ReadFault>(
            ReadFault::Short,
        ),
{
    if buf@ == head + key + stored + rest {
        let end = addr.total() as int;
        assert(buf@.subrange(20, end) =~= key + stored);
        assert(buf@.subrange(20 + addr.key_len, end) =~= stored);
    }
}

/// After a restart the later segment is the active one; of two that are equally late the one
/// on the primary disk is.
pub proof fn the_later_segment_is_active(
    primary: Option<(u32, u64)>,
    failover: Option<(u32, u64)>,
    r: ActiveSegment,
)
    requires
        call_ensures(choose_active, (primary, failover), r),
    ensures
        primary is None && failover is None ==> !r.on_failover && r.seg_id == 0 && r.flush_offset
            == 0,
        r.on_failover <==> failover is Some && (primary is None || (primary->0).0 < (
        failover->0).0),
        r.on_failover ==> (r.seg_id, r.flush_offset) == failover->0,
        !r.on_failover && primary is Some ==> (r.seg_id, r.flush_offset) == primary->0,
{
}

/// A file lies below its directory, with one slash between.
pub proof fn files_lie_below(dir: &str, id: u32, r: String, meta: String)
    requires
        call_ensures(seg_path, (dir, id), r),
        call_ensures(meta_path, (dir,), meta),
    ensures
        dir@.len() > 0 && dir@[dir@.len() - 1] != '/' ==> r@ == dir@ + "/"@ + seg_name(id) && meta@
            == dir@ + "/"@ + "seg.meta"@,
        dir@.len() > 0 && dir@[dir@.len() - 1] == '/' ==> r@ == dir@ + seg_name(id) && meta@
            == dir@ + "seg.meta"@,
{
}

/// Something is left to flush exactly when not all of the segment is durable or records wait.
pub proof fn waiting_records_are_flushed(w: &SegmentWriter, r: bool)
    requires
        call_ensures(SegmentWriter::needs_flush, (w,), r),
    ensures
        r <==> w.flush_offset != w.len || w.unflushed_items != 0,
{
}

/// A record's header is twenty bytes: a name, then the length of the key, the flags, the
/// stored and the full length of the body, and the checksum, each with the low byte first.
pub proof fn headers_have_their_fields(h: &ParsedHeader, r: Vec<u8>)
    requires
        call_ensures(encode_header, (h,), r),
    ensures
        r@.len() == 20,
        r@[0] == 0x4f && r@[1] == 0x5a && r@[2] == 0x42 && r@[3] == 0x32,
        r@.subrange(4, 6) == bytes::le_bytes(h.key_len as nat, 2),
        r@.subrange(6, 8) == bytes::le_bytes(h.flags as nat, 2),
        r@.subrange(8, 12) == bytes::le_bytes(h.stored_len as nat, 4),
        r@.subrange(12, 16) == bytes::le_bytes(h.logical_len as nat, 4),
        r@.subrange(16, 20) == bytes::le_bytes(h.crc as nat, 4),
{
    bytes::lemma_le_bytes_len(h.key_len as nat, 2);
    bytes::lemma_le_bytes_len(h.flags as nat, 2);
    bytes::lemma_le_bytes_len(h.stored_len as nat, 4);
    bytes::lemma_le_bytes_len(h.logical_len as nat, 4);
    bytes::lemma_le_bytes_len(h.crc as nat, 4);
    assert(r@.subrange(4, 6) =~= bytes::le_bytes(h.key_len as nat, 2));
    assert(r@.subrange(6, 8) =~= bytes::le_bytes(h.flags as nat, 2));
    assert(r@.subrange(8, 12) =~= bytes::le_bytes(h.stored_len as nat, 4));
    assert(r@.subrange(12, 16) =~= bytes::le_bytes(h.logical_len as nat, 4));
    assert(r@.subrange(16, 20) =~= bytes::le_bytes(h.crc as nat, 4));
}

/// A header is read wherever its name stands in front of sixteen more bytes, field by field.
pub proof fn headers_are_read_by_field(h: &[u8], r: Option<ParsedHeader>)
    requires
        call_ensures(parse_header, (h,), r),
    ensures
        r is Some <==> h@.len() >= 20 && h@[0] == 0x4f && h@[1] == 0x5a && h@[2] == 0x42 && h@[3]
            == 0x32,
        r is Some ==> ({
            let x = r->0;
            &&& x.key_len as nat == bytes::le_value(h@.subrange(4, 6))
            &&& x.flags as nat == bytes::le_value(h@.subrange(6, 8))
            &&& x.stored_len as nat == bytes::le_value(h@.subrange(8, 12))
            &&& x.logical_len as nat == bytes::le_value(h@.subrange(12, 16))
            &&& x.crc as nat == bytes::le_value(h@.subrange(16, 20))
        }),
{
    let b = h@;
    if b.len() >= 20 {
        let magic = seq![0x4fu8, 0x5a, 0x42, 0x32];
        bytes::lemma_pow256_values();
        bytes::lemma_le_value_bound(b.subrange(4, 6));
        bytes::lemma_le_value_bound(b.subrange(6, 8));
        bytes::lemma_le_value_bound(b.subrange(8, 12));
        bytes::lemma_le_value_bound(b.subrange(12, 16));
        bytes::lemma_le_value_bound(b.subrange(16, 20));
        if b[0] == 0x4f && b[1] == 0x5a && b[2] == 0x42 && b[3] == 0x32 {
            assert(b.subrange(0, 4) =~= magic);
        }
        if b.subrange(0, 4) == magic {
            assert(b[0] == b.subrange(0, 4)[0]);
            assert(b[1] == b.subrange(0, 4)[1]);
            assert(b[2] == b.subrange(0, 4)[2]);
            assert(b[3] == b.subrange(0, 4)[3]);
        }
    }
}

/// The file beside a segment names the segment and how much of it is safe, in twelve bytes.
pub proof fn meta_files_have_their_fields(
    seg_id: u32,
    flush_offset: u64,
    r: Vec<u8>,
    buf: &[u8],
    back: Option<(u32, u64)>,
)
    requires
        call_ensures(encode_meta, (seg_id, flush_offset), r),
        call_ensures(parse_meta, (buf,), back),
    ensures
        r@.len() == 12,
        r@.subrange(0, 4) == bytes::le_bytes(seg_id as nat, 4),
        r@.subrange(4, 12) == bytes::le_bytes(flush_offset as nat, 8),
        back is Some <==> buf@.len() == 12,
        back is Some ==> (back->0).0 as nat == bytes::le_value(buf@.subrange(0, 4)) && (
        back->0).1 as nat == bytes::le_value(buf@.subrange(4, 12)),
        buf@ == r@ ==> back == Some((seg_id, flush_offset)),
{
    bytes::lemma_le_bytes_len(seg_id as nat, 4);
    bytes::lemma_le_bytes_len(flush_offset as nat, 8);
    assert(r@.subrange(0, 4) =~= bytes::le_bytes(seg_id as nat, 4));
    assert(r@.subrange(4, 12) =~= bytes::le_bytes(flush_offset as nat, 8));
    meta_round_trip(seg_id, flush_offset);
    if buf@.len() == 12 {
        bytes::lemma_pow256_values();
        bytes::lemma_le_value_bound(buf@.subrange(0, 4));
        bytes::lemma_le_value_bound(buf@.subrange(4, 12));
    }
}

} // verus!
