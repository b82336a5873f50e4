//! The index of a shard: rows, lookups, and what every operation does to them.
//!
//! A key is either in the inline table (small bodies, stored in the index) or
//! in the address table (bodies in a segment), never in both.  A third table
//! counts the garbage bytes of each segment.
use vstd::prelude::*;
use vstd::string::*;
use crate::bytes;
use crate::domain::{DomainError, DomainResult};
use crate::domain;
use crate::piece::parse_piece_header;
use crate::piece;
use crate::segment::{RecordAddr, RecoveredRecord, FLAG_ZSTD};
use crate::segment;
use crate::text;

verus! {

/// A row of the address table.
#[derive(Clone, Copy, Debug, PartialEq, Eq, Structural)]
pub struct AddrEntry {
    pub addr: RecordAddr,
    pub crc: u32,
    /// length of the body before compression
    pub logical_len: u32,
    pub flags: u16,
    /// set when the body is an erasure-coded piece: length of the whole object
    pub obj_logical: Option<u64>,
}

impl AddrEntry {
    /// The row as it is written: segment u32 | offset u64 | stored length u32 |
    /// key length u16 | checksum u32 | logical length u32 | flags u16, and for a
    /// piece the object length u64.
    pub open spec fn encoded(&self) -> Seq<u8> {
        let base = bytes::le_bytes(self.addr.seg_id as nat, 4) + bytes::le_bytes(
            self.addr.offset as nat,
            8,
        ) + bytes::le_bytes(self.addr.stored_len as nat, 4) + bytes::le_bytes(
            self.addr.key_len as nat,
            2,
        ) + bytes::le_bytes(self.crc as nat, 4) + bytes::le_bytes(self.logical_len as nat, 4)
            + bytes::le_bytes(self.flags as nat, 2);
        match self.obj_logical {
            Some(obj) => base + bytes::le_bytes(obj as nat, 8),
            None => base,
        }
    }
}

/// Reading of an address row; its length tells which fields it holds.
pub open spec fn decoded_addr(v: Seq<u8>) -> Option<AddrEntry> {
    if v.len() != 22 && v.len() != 28 && v.len() != 36 {
        None
    } else {
        let addr = RecordAddr {
            seg_id: bytes::le_value(v.subrange(0, 4)) as u32,
            offset: bytes::le_value(v.subrange(4, 12)) as u64,
            stored_len: bytes::le_value(v.subrange(12, 16)) as u32,
            key_len: bytes::le_value(v.subrange(16, 18)) as u16,
        };
        Some(
            AddrEntry {
                addr,
                crc: bytes::le_value(v.subrange(18, 22)) as u32,
                logical_len: if v.len() >= 28 {
                    bytes::le_value(v.subrange(22, 26)) as u32
                } else {
                    addr.stored_len
                },
                flags: if v.len() >= 28 {
                    bytes::le_value(v.subrange(26, 28)) as u16
                } else {
                    0
                },
                obj_logical: if v.len() == 36 {
                    Some(bytes::le_value(v.subrange(28, 36)) as u64)
                } else {
                    None
                },
            },
        )
    }
}

pub fn encode_addr(e: &AddrEntry) -> (r: Vec<u8>)
    ensures
        r@ == e.encoded(),
{
    let mut v: Vec<u8> = Vec::new();
    bytes::push_le(&mut v, e.addr.seg_id as u64, 4);
    bytes::push_le(&mut v, e.addr.offset, 8);
    bytes::push_le(&mut v, e.addr.stored_len as u64, 4);
    bytes::push_le(&mut v, e.addr.key_len as u64, 2);
    bytes::push_le(&mut v, e.crc as u64, 4);
    bytes::push_le(&mut v, e.logical_len as u64, 4);
    bytes::push_le(&mut v, e.flags as u64, 2);
    match e.obj_logical {
        Some(obj) => {
            bytes::push_le(&mut v, obj, 8);
        },
        None => {},
    }
    assert(v@ =~= e.encoded());
    v
}

/// Reads an address row: 22 bytes without compression fields, 28 with them, 36
/// with an object length.
pub fn decode_addr(v: &[u8]) -> (r: Option<AddrEntry>)
    ensures
        r == decoded_addr(v@),
{
    let n: usize = v.len();
    if n != 22 && n != 28 && n != 36 {
        return None;
    }
    proof {
        bytes::lemma_pow256_values();
    }
    let addr = RecordAddr {
        seg_id: bytes::read_le(v, 0, 4) as u32,
        offset: bytes::read_le(v, 4, 8),
        stored_len: bytes::read_le(v, 12, 4) as u32,
        key_len: bytes::read_le(v, 16, 2) as u16,
    };
    let crc: u32 = bytes::read_le(v, 18, 4) as u32;
    let logical_len: u32 = if n >= 28 {
        bytes::read_le(v, 22, 4) as u32
    } else {
        addr.stored_len
    };
    let flags: u16 = if n >= 28 {
        bytes::read_le(v, 26, 2) as u16
    } else {
        0
    };
    let obj_logical: Option<u64> = if n == 36 {
        Some(bytes::read_le(v, 28, 8))
    } else {
        None
    };
    Some(AddrEntry { addr, crc, logical_len, flags, obj_logical })
}

/// A written row reads back as itself.
pub proof fn addr_round_trip(e: AddrEntry)
    ensures
        decoded_addr(e.encoded()) == Some(e),
{
    bytes::lemma_pow256_values();
    bytes::lemma_le_round_trip(e.addr.seg_id as nat, 4);
    bytes::lemma_le_round_trip(e.addr.offset as nat, 8);
    bytes::lemma_le_round_trip(e.addr.stored_len as nat, 4);
    bytes::lemma_le_round_trip(e.addr.key_len as nat, 2);
    bytes::lemma_le_round_trip(e.crc as nat, 4);
    bytes::lemma_le_round_trip(e.logical_len as nat, 4);
    bytes::lemma_le_round_trip(e.flags as nat, 2);
    let v = e.encoded();
    match e.obj_logical {
        Some(obj) => {
            bytes::lemma_le_round_trip(obj as nat, 8);
            assert(v.subrange(28, 36) =~= bytes::le_bytes(obj as nat, 8));
        },
        None => {},
    }
    assert(v.subrange(0, 4) =~= bytes::le_bytes(e.addr.seg_id as nat, 4));
    assert(v.subrange(4, 12) =~= bytes::le_bytes(e.addr.offset as nat, 8));
    assert(v.subrange(12, 16) =~= bytes::le_bytes(e.addr.stored_len as nat, 4));
    assert(v.subrange(16, 18) =~= bytes::le_bytes(e.addr.key_len as nat, 2));
    assert(v.subrange(18, 22) =~= bytes::le_bytes(e.crc as nat, 4));
    assert(v.subrange(22, 26) =~= bytes::le_bytes(e.logical_len as nat, 4));
    assert(v.subrange(26, 28) =~= bytes::le_bytes(e.flags as nat, 2));
}

/// What zstd makes of compressed bytes, given room for exactly `capacity` bytes; the
/// text of its error when they are no valid frame or need more room.
pub uninterp spec fn zstd_decompressed(c: Seq<u8>, capacity: nat) -> Result<Seq<u8>, Seq<char>>;

/// The frame that zstd packs bytes into at a level, if it does.
pub uninterp spec fn zstd_compressed(data: Seq<u8>, level: i32) -> Option<Seq<u8>>;

/// A result of a compression taken by value.
pub open spec fn frame_view(r: Option<Vec<u8>>) -> Option<Seq<u8>> {
    match r {
        Some(c) => Some(c@),
        None => None,
    }
}

/// `zstd::bulk::compress`: the frame is a function of the bytes and the level, memory
/// running out aside, and decompression with room for the body gives the body back.
#[verifier::external_body]
fn zstd_compress(data: &[u8], level: i32) -> (r: Option<Vec<u8>>)
    ensures
        frame_view(r) == zstd_compressed(data@, level),
        r matches Some(c) ==> (data@.len() > 0 ==> zstd_decompressed(c@, data@.len()) == Ok::<
            Seq<u8>,
            Seq<char>,
        >(data@)),
{
    zstd::bulk::compress(data, level).ok()
}

/// `zstd::bulk::decompress_to_buffer` into all of a buffer: the room is the buffer's
/// length, the result the number of bytes written to its front.
#[verifier::external_body]
fn zstd_decompress_to(c: &[u8], buffer: &mut Vec<u8>) -> (r: Result<usize, String>)
    ensures
        final(buffer)@.len() == old(buffer)@.len(),
        r matches Ok(n) ==> n <= old(buffer)@.len(),
        zstd_decompressed(c@, old(buffer)@.len()) == match r {
            Ok(n) => Ok::<Seq<u8>, Seq<char>>(final(buffer)@.take(n as int)),
            Err(t) => Err(t@),
        },
{
    zstd::bulk::decompress_to_buffer(c, buffer.as_mut_slice()).map_err(|e| e.to_string())
}

/// Decompresses a frame into at most `capacity` bytes.
fn zstd_decompress(c: &[u8], capacity: usize) -> (r: Result<Vec<u8>, String>)
    ensures
        zstd_decompressed(c@, capacity as nat) == match r {
            Ok(v) => Ok::<Seq<u8>, Seq<char>>(v@),
            Err(t) => Err(t@),
        },
        r matches Ok(v) ==> v@.len() <= capacity,
{
    let mut out: Vec<u8> = vec![0u8; capacity];
    match zstd_decompress_to(c, &mut out) {
        Ok(n) => {
            let ghost full = out@;
            out.truncate(n);
            assert(out@ =~= full.take(n as int));
            Ok(out)
        },
        Err(why) => Err(why),
    }
}

/// The level bodies are compressed at.
pub const ZSTD_LEVEL: i32 = 1;

/// How a body is put away.
#[derive(Debug)]
pub enum BodyPlan {
    /// in the inline table
    Inline,
    /// in a segment, as these bytes
    Segment { stored: Vec<u8>, logical_len: u32, flags: u16 },
    /// nowhere: no record can name the key's length
    LongKey,
    /// nowhere: no record can name the body's length
    LongBody,
}

/// Whether a body goes into the inline table.  Pieces never do: their object
/// length lives in the address row.
pub open spec fn goes_inline(len: nat, obj_logical: Option<u64>, inline_min: u32) -> bool {
    obj_logical is None && len < inline_min
}

/// The form a body has in a segment, and its flags: compressed when that is switched on,
/// the body is long enough and the result is shorter.
pub open spec fn stored_form(data: Seq<u8>, compress_zstd: bool, compress_min: u32) -> (
    Seq<u8>,
    u16,
) {
    match zstd_compressed(data, ZSTD_LEVEL) {
        Some(c) if compress_zstd && data.len() >= compress_min && c.len() < data.len() => (
            c,
            FLAG_ZSTD,
        ),
        _ => (data, 0),
    }
}

/// Whether `stored`, under `flags`, is a way to write `data`.
pub open spec fn stores(stored: Seq<u8>, flags: u16, data: Seq<u8>) -> bool {
    if flags == 0 {
        stored == data
    } else {
        &&& flags == FLAG_ZSTD
        &&& stored.len() < data.len()
        &&& zstd_decompressed(stored, data.len()) == Ok::<Seq<u8>, Seq<char>>(data)
    }
}

/// Chooses between a body and its compressed form: the smaller one wins.
pub fn choose_stored(data: &[u8], compressed: Option<Vec<u8>>) -> (r: (Vec<u8>, u16))
    ensures
        match compressed {
            Some(c) => if c@.len() < data@.len() {
                r.0@ == c@ && r.1 == FLAG_ZSTD
            } else {
                r.0@ == data@ && r.1 == 0
            },
            None => r.0@ == data@ && r.1 == 0,
        },
{
    match compressed {
        Some(c) => {
            if c.len() < data.len() {
                return (c, FLAG_ZSTD);
            }
        },
        None => {},
    }
    let whole = bytes::copy_range(data, 0, data.len());
    assert(whole@ =~= data@);
    (whole, 0)
}

/// Decides where a body goes and, for a segment, in which form.  A record has two bytes for
/// the length of its key and four for that of its body; what does not fit is refused.
pub fn plan_body(
    key_len: usize,
    data: &[u8],
    obj_logical: Option<u64>,
    inline_min: u32,
    compress_zstd: bool,
    compress_min: u32,
) -> (r: BodyPlan)
    ensures
        r is Inline <==> goes_inline(data@.len(), obj_logical, inline_min),
        r is LongKey <==> !goes_inline(data@.len(), obj_logical, inline_min) && key_len
            >= 0x1_0000,
        r is LongBody <==> !goes_inline(data@.len(), obj_logical, inline_min) && key_len
            < 0x1_0000 && data@.len() >= 0x1_0000_0000,
        r matches BodyPlan::Segment { stored, logical_len, flags } ==> {
            &&& logical_len == data@.len()
            &&& (stored@, flags) == stored_form(data@, compress_zstd, compress_min)
            &&& stores(stored@, flags, data@)
        },
{
    if obj_logical.is_none() && (data.len() as u64) < inline_min as u64 {
        return BodyPlan::Inline;
    }
    if key_len as u64 >= 0x1_0000 {
        return BodyPlan::LongKey;
    }
    if data.len() as u64 >= 0x1_0000_0000 {
        return BodyPlan::LongBody;
    }
    let packed: Option<Vec<u8>> = if compress_zstd && data.len() as u64 >= compress_min as u64 {
        zstd_compress(data, ZSTD_LEVEL)
    } else {
        None
    };
    let (stored, flags) = choose_stored(data, packed);
    BodyPlan::Segment { stored, logical_len: data.len() as u32, flags }
}

/// The body behind stored bytes, or why there is none.
pub open spec fn opened_body(stored: Seq<u8>, flags: u16, logical_len: u32) -> Result<
    Seq<u8>,
    domain::ErrorView,
> {
    if flags & FLAG_ZSTD == 0 {
        Ok(stored)
    } else {
        match zstd_decompressed(stored, logical_len as nat) {
            Err(t) => Err(domain::ErrorView::IntegrityViolation("zstd: "@ + t)),
            Ok(out) => if out.len() == logical_len {
                Ok(out)
            } else {
                Err(domain::ErrorView::IntegrityViolation("zstd: logical length mismatch"@))
            },
        }
    }
}

/// Checks the length of a decompressed body.
pub fn check_inflated(out: Vec<u8>, logical_len: u32) -> (r: DomainResult<Vec<u8>>)
    ensures
        domain::bytes_result(r) == (if out@.len() == logical_len {
            Ok::<Seq<u8>, domain::ErrorView>(out@)
        } else {
            Err(domain::ErrorView::IntegrityViolation("zstd: logical length mismatch"@))
        }),
{
    if out.len() as u64 != logical_len as u64 {
        return Err(DomainError::IntegrityViolation("zstd: logical length mismatch".to_owned()));
    }
    Ok(out)
}

/// Turns stored bytes into the body they stand for.
pub fn open_body(stored: Vec<u8>, flags: u16, logical_len: u32) -> (r: DomainResult<Vec<u8>>)
    ensures
        domain::bytes_result(r) == opened_body(stored@, flags, logical_len),
{
    if flags & FLAG_ZSTD == 0 {
        return Ok(stored);
    }
    match zstd_decompress(stored.as_slice(), logical_len as usize) {
        Ok(out) => check_inflated(out, logical_len),
        Err(why) => {
            let mut t = "zstd: ".to_owned();
            t.append(why.as_str());
            Err(DomainError::IntegrityViolation(t))
        },
    }
}

/// What was put away comes back.
pub proof fn body_round_trip(stored: Seq<u8>, flags: u16, data: Seq<u8>)
    requires
        stores(stored, flags, data),
        data.len() < 0x1_0000_0000,
    ensures
        opened_body(stored, flags, data.len() as u32) == Ok::<Seq<u8>, domain::ErrorView>(data),
{
    assert(0u16 & 1u16 == 0u16) by (bit_vector);
    assert(1u16 & 1u16 == 1u16) by (bit_vector);
}

/// What the index knows of a key.
#[derive(Debug)]
pub enum Lookup {
    Inline(Vec<u8>),
    Addr(AddrEntry),
    Missing,
}

/// [`Lookup`] by value.
pub ghost enum LookupView {
    Inline(Seq<u8>),
    Addr(AddrEntry),
    Missing,
}

impl View for Lookup {
    type V = LookupView;

    open spec fn view(&self) -> LookupView {
        match *self {
            Lookup::Inline(v) => LookupView::Inline(v@),
            Lookup::Addr(e) => LookupView::Addr(e),
            Lookup::Missing => LookupView::Missing,
        }
    }
}

/// Reading of a key's rows: the inline row wins; an address row has to decode.
pub open spec fn looked_up(inline: Option<Seq<u8>>, addr: Option<Seq<u8>>) -> Result<
    LookupView,
    domain::ErrorView,
> {
    match (inline, addr) {
        (Some(v), _) => Ok(LookupView::Inline(v)),
        (None, None) => Ok(LookupView::Missing),
        (None, Some(row)) => match decoded_addr(row) {
            Some(e) => Ok(LookupView::Addr(e)),
            None => Err(domain::ErrorView::Io("bad addr entry"@)),
        },
    }
}

/// A row taken by its view.
pub open spec fn row_view(r: Option<Vec<u8>>) -> Option<Seq<u8>> {
    match r {
        Some(v) => Some(v@),
        None => None,
    }
}

pub fn lookup(inline: Option<Vec<u8>>, addr: Option<Vec<u8>>) -> (r: DomainResult<Lookup>)
    ensures
        (match r {
            Ok(l) => Ok::<LookupView, domain::ErrorView>(l@),
            Err(e) => Err(e@),
        }) == looked_up(row_view(inline), row_view(addr)),
{
    match inline {
        Some(v) => {
            return Ok(Lookup::Inline(v));
        },
        None => {},
    }
    match addr {
        None => Ok(Lookup::Missing),
        Some(row) => match decode_addr(row.as_slice()) {
            Some(e) => Ok(Lookup::Addr(e)),
            None => Err(DomainError::Io("bad addr entry".to_owned())),
        },
    }
}

/// Length of a body and, for a piece, of its object, from the index alone.
pub open spec fn stat_of(l: LookupView) -> Result<(u64, Option<u64>), domain::ErrorView> {
    match l {
        LookupView::Inline(v) => Ok((v.len() as u64, None)),
        LookupView::Addr(e) => Ok((e.logical_len as u64, e.obj_logical)),
        LookupView::Missing => Err(domain::ErrorView::NotFound),
    }
}

pub fn stat_obj(l: &Lookup) -> (r: DomainResult<(u64, Option<u64>)>)
    ensures
        (match r {
            Ok(v) => Ok::<(u64, Option<u64>), domain::ErrorView>(v),
            Err(e) => Err(e@),
        }) == stat_of(l@),
{
    match l {
        Lookup::Inline(v) => Ok((v.len() as u64, None)),
        Lookup::Addr(e) => Ok((e.logical_len as u64, e.obj_logical)),
        Lookup::Missing => Err(DomainError::NotFound),
    }
}

/// Length of a body, from the index alone.
pub fn stat(l: &Lookup) -> (r: DomainResult<u64>)
    ensures
        match stat_of(l@) {
            Ok(v) => r matches Ok(n) && n == v.0,
            Err(e) => r matches Err(x) && x@ == e,
        },
{
    match l {
        Lookup::Inline(v) => Ok(v.len() as u64),
        Lookup::Addr(e) => Ok(e.logical_len as u64),
        Lookup::Missing => Err(DomainError::NotFound),
    }
}

/// What happens to a row.
#[derive(Debug)]
pub enum RowChange {
    Keep,
    Remove,
    Insert(Vec<u8>),
}

/// [`RowChange`] by value.
pub ghost enum RowChangeView {
    Keep,
    Remove,
    Insert(Seq<u8>),
}

impl View for RowChange {
    type V = RowChangeView;

    open spec fn view(&self) -> RowChangeView {
        match *self {
            RowChange::Keep => RowChangeView::Keep,
            RowChange::Remove => RowChangeView::Remove,
            RowChange::Insert(v) => RowChangeView::Insert(v@),
        }
    }
}

/// One transaction on the rows of a key.
#[derive(Debug)]
pub struct IndexUpdate {
    pub addr: RowChange,
    pub inline: RowChange,
    /// segment and number of bytes that became garbage
    pub bump: Option<(u32, u64)>,
}

/// [`IndexUpdate`] by value.
pub ghost struct UpdateView {
    pub addr: RowChangeView,
    pub inline: RowChangeView,
    pub bump: Option<(u32, u64)>,
}

impl View for IndexUpdate {
    type V = UpdateView;

    open spec fn view(&self) -> UpdateView {
        UpdateView { addr: self.addr@, inline: self.inline@, bump: self.bump }
    }
}

/// The garbage that giving up an address row makes.
pub open spec fn garbage_of(old_row: Option<Seq<u8>>) -> Option<(u32, u64)> {
    match old_row {
        Some(row) => match decoded_addr(row) {
            Some(e) => Some((e.addr.seg_id, e.addr.stored_len as u64)),
            None => None,
        },
        None => None,
    }
}

fn garbage(old_row: &Option<Vec<u8>>) -> (r: Option<(u32, u64)>)
    ensures
        r == garbage_of(row_view(*old_row)),
{
    match old_row {
        Some(row) => match decode_addr(row.as_slice()) {
            Some(e) => Some((e.addr.seg_id, e.addr.stored_len as u64)),
            None => None,
        },
        None => None,
    }
}

/// A body goes into the inline table.
pub open spec fn inline_put(data: Seq<u8>, old_row: Option<Seq<u8>>) -> UpdateView {
    UpdateView {
        addr: RowChangeView::Remove,
        inline: RowChangeView::Insert(data),
        bump: garbage_of(old_row),
    }
}

/// A body was written to a segment.
pub open spec fn addr_put(entry: AddrEntry, old_row: Option<Seq<u8>>) -> UpdateView {
    UpdateView {
        addr: RowChangeView::Insert(entry.encoded()),
        inline: RowChangeView::Remove,
        bump: garbage_of(old_row),
    }
}

/// A key goes away; its body stays in the segment as garbage.
pub open spec fn delete_of(old_row: Option<Seq<u8>>) -> UpdateView {
    UpdateView {
        addr: RowChangeView::Remove,
        inline: RowChangeView::Remove,
        bump: garbage_of(old_row),
    }
}

pub fn put_inline(data: Vec<u8>, old_row: &Option<Vec<u8>>) -> (r: IndexUpdate)
    ensures
        r@ == inline_put(data@, row_view(*old_row)),
{
    IndexUpdate {
        addr: RowChange::Remove,
        inline: RowChange::Insert(data),
        bump: garbage(old_row),
    }
}

pub fn put_addr(entry: &AddrEntry, old_row: &Option<Vec<u8>>) -> (r: IndexUpdate)
    ensures
        r@ == addr_put(*entry, row_view(*old_row)),
{
    IndexUpdate {
        addr: RowChange::Insert(encode_addr(entry)),
        inline: RowChange::Remove,
        bump: garbage(old_row),
    }
}

pub fn delete(old_row: &Option<Vec<u8>>) -> (r: IndexUpdate)
    ensures
        r@ == delete_of(row_view(*old_row)),
{
    IndexUpdate { addr: RowChange::Remove, inline: RowChange::Remove, bump: garbage(old_row) }
}

/// Whether an entry still points at the record at `addr`.
pub open spec fn points_at(e: AddrEntry, addr: RecordAddr) -> bool {
    e.addr.seg_id == addr.seg_id && e.addr.offset == addr.offset
}

/// Whether a record found in a segment is the one the index refers to.
pub fn is_live(l: &Lookup, addr: &RecordAddr) -> (r: bool)
    ensures
        r == (l@ matches LookupView::Addr(e) && points_at(e, *addr)),
{
    match l {
        Lookup::Addr(e) => e.addr.seg_id == addr.seg_id && e.addr.offset == addr.offset,
        _ => false,
    }
}

/// The row after a record was copied elsewhere: it moves along only if it still
/// points at the old copy, and keeps its object length.
pub open spec fn moved_row(
    cur: Option<Seq<u8>>,
    old_addr: RecordAddr,
    new_addr: RecordAddr,
    new_crc: u32,
    logical_len: u32,
    flags: u16,
) -> Option<AddrEntry> {
    match cur {
        Some(row) => match decoded_addr(row) {
            Some(e) => if points_at(e, old_addr) {
                Some(
                    AddrEntry {
                        addr: new_addr,
                        crc: new_crc,
                        logical_len,
                        flags,
                        obj_logical: e.obj_logical,
                    },
                )
            } else {
                None
            },
            None => None,
        },
        None => None,
    }
}

/// The new row for a copied record; `None` when the key has moved on meanwhile,
/// so that the copy is garbage.
pub fn move_row(
    cur: &Option<Vec<u8>>,
    old_addr: &RecordAddr,
    new_addr: &RecordAddr,
    new_crc: u32,
    logical_len: u32,
    flags: u16,
) -> (r: Option<Vec<u8>>)
    ensures
        row_view(r) == match moved_row(
            row_view(*cur),
            *old_addr,
            *new_addr,
            new_crc,
            logical_len,
            flags,
        ) {
            Some(e) => Some(e.encoded()),
            None => None,
        },
{
    match cur {
        Some(row) => match decode_addr(row.as_slice()) {
            Some(e) => {
                if e.addr.seg_id == old_addr.seg_id && e.addr.offset == old_addr.offset {
                    let ne = AddrEntry {
                        addr: *new_addr,
                        crc: new_crc,
                        logical_len,
                        flags,
                        obj_logical: e.obj_logical,
                    };
                    Some(encode_addr(&ne))
                } else {
                    None
                }
            },
            None => None,
        },
        None => None,
    }
}

/// The row with its object length set; none when there is nothing to change.
pub open spec fn with_obj_logical(cur: Option<Seq<u8>>, obj: u64) -> Option<AddrEntry> {
    match cur {
        Some(row) => match decoded_addr(row) {
            Some(e) => if e.obj_logical == Some(obj) {
                None
            } else {
                Some(AddrEntry { obj_logical: Some(obj), ..e })
            },
            None => None,
        },
        None => None,
    }
}

/// The new row of a piece that did not name its object's length yet; only the
/// row changes, never the body.
pub fn set_obj_logical(cur: &Option<Vec<u8>>, obj: u64) -> (r: Option<Vec<u8>>)
    ensures
        row_view(r) == match with_obj_logical(row_view(*cur), obj) {
            Some(e) => Some(e.encoded()),
            None => None,
        },
{
    match cur {
        Some(row) => match decode_addr(row.as_slice()) {
            Some(e) => {
                let same = match e.obj_logical {
                    Some(o) => o == obj,
                    None => false,
                };
                if same {
                    None
                } else {
                    let ne = AddrEntry {
                        addr: e.addr,
                        crc: e.crc,
                        logical_len: e.logical_len,
                        flags: e.flags,
                        obj_logical: Some(obj),
                    };
                    Some(encode_addr(&ne))
                }
            },
            None => None,
        },
        None => None,
    }
}

/// The object length that a recovered record's envelope names.
pub open spec fn recovered_obj(r: segment::RecordView) -> Option<u64> {
    let raw = if r.flags & FLAG_ZSTD == 0 {
        Some(r.stored)
    } else {
        match zstd_decompressed(r.stored, r.logical_len as nat) {
            Ok(out) => Some(out),
            Err(_) => None,
        }
    };
    match raw {
        Some(body) => match piece::parsed_piece(body) {
            Some(h) => Some(h.logical_len),
            None => None,
        },
        None => None,
    }
}

/// The row that puts a recovered record back into the index.  The object length
/// of a piece is read from its envelope again.
pub open spec fn recovered_row(r: segment::RecordView) -> AddrEntry {
    AddrEntry {
        addr: r.addr,
        crc: r.crc,
        logical_len: r.logical_len,
        flags: r.flags,
        obj_logical: recovered_obj(r),
    }
}

pub fn recovered_entry(r: &RecoveredRecord) -> (e: AddrEntry)
    ensures
        e == recovered_row(r@),
{
    let head = if r.flags & FLAG_ZSTD == 0 {
        parse_piece_header(r.stored.as_slice())
    } else {
        match zstd_decompress(r.stored.as_slice(), r.logical_len as usize) {
            Ok(out) => parse_piece_header(out.as_slice()),
            Err(_) => None,
        }
    };
    let obj_logical: Option<u64> = match head {
        Some(h) => Some(h.logical_len),
        None => None,
    };
    AddrEntry { addr: r.addr, crc: r.crc, logical_len: r.logical_len, flags: r.flags, obj_logical }
}

/// The garbage counter after more garbage.
pub fn bump_in(cur: Option<u64>, n: u64) -> (r: u64)
    requires
        (match cur {
            Some(c) => c,
            None => 0,
        }) + n <= u64::MAX,
    ensures
        r == (match cur {
            Some(c) => c,
            None => 0,
        }) + n,
{
    match cur {
        Some(c) => c + n,
        None => n,
    }
}

/// The name under which a segment's garbage counter is kept.
pub fn discard_key(seg_id: u32) -> (r: String)
    ensures
        r@ == "discard."@ + text::dec_chars(seg_id as nat),
{
    let mut t = "discard.".to_owned();
    text::push_dec(&mut t, seg_id as u64);
    t
}

/// A short body goes into the inline table unless it is a piece.  Any other goes into a
/// segment whole: as it is, or as the frame that the compressor made of it where compression
/// is on, the body is long enough and the frame is shorter.
pub proof fn bodies_are_put_by_size(
    key_len: usize,
    data: &[u8],
    obj_logical: Option<u64>,
    inline_min: u32,
    compress_zstd: bool,
    compress_min: u32,
    r: BodyPlan,
)
    requires
        call_ensures(
            plan_body,
            (key_len, data, obj_logical, inline_min, compress_zstd, compress_min),
            r,
        ),
    ensures
        obj_logical is None && data@.len() < inline_min ==> r is Inline,
        r is Inline ==> obj_logical is None && data@.len() < inline_min,
        r !is Inline && key_len < 0x1_0000 && data@.len() < 0x1_0000_0000 ==> r is Segment,
        r !is Inline && (key_len >= 0x1_0000 || data@.len() >= 0x1_0000_0000) ==> r !is Segment,
        match r {
            BodyPlan::Segment { stored, logical_len, flags } => {
                &&& logical_len == data@.len()
                &&& stored@.len() <= data@.len()
                &&& flags == 0 ==> stored@ == data@
                &&& flags != 0 ==> flags == 1 && compress_zstd && data@.len() >= compress_min
                    && stored@.len() < data@.len() && zstd_compressed(data@, 1) == Some(stored@)
                &&& !compress_zstd || data@.len() < compress_min ==> flags == 0
                &&& compress_zstd && data@.len() >= compress_min && (zstd_compressed(
                    data@,
                    1,
                ) matches Some(c) && c.len() < data@.len()) ==> flags == 1
            },
            _ => true,
        },
{
}

/// Plain stored bytes are the body; packed ones are what the decompressor makes of them, if
/// that has the length it should have.
pub proof fn stored_bodies_are_opened(
    stored: Vec<u8>,
    flags: u16,
    logical_len: u32,
    r: DomainResult<Vec<u8>>,
)
    requires
        call_ensures(open_body, (stored, flags, logical_len), r),
    ensures
        flags % 2 == 0 ==> (r matches Ok(b) && b@ == stored@),
        flags % 2 == 1 ==> match zstd_decompressed(stored@, logical_len as nat) {
            Ok(out) => if out.len() == logical_len {
                r matches Ok(b) && b@ == out
            } else {
                r is Err
            },
            Err(_) => r is Err,
        },
        r matches Err(e) ==> e is IntegrityViolation,
{
    assert(flags % 2 == flags & 1u16) by (bit_vector);
}

/// A key's inline row is its body, whatever its address row holds; without one its address
/// row leads to the record; without either the key is missing; a row of another length is a
/// fault.
pub proof fn rows_are_found(
    inline: Option<Vec<u8>>,
    addr: Option<Vec<u8>>,
    e: AddrEntry,
    r: DomainResult<Lookup>,
)
    requires
        call_ensures(lookup, (inline, addr), r),
    ensures
        inline matches Some(v) ==> (r matches Ok(Lookup::Inline(b)) && b@ == v@),
        inline is None && addr is None ==> r matches Ok(Lookup::Missing),
        inline is None && addr is Some && (addr->0)@ == e.encoded() ==> (r matches Ok(
            Lookup::Addr(f),
        ) && f == e),
        inline is None && addr is Some && (addr->0)@.len() != 22 && (addr->0)@.len() != 28 && (
        addr->0)@.len() != 36 ==> r is Err,
        inline is None && addr is Some && ((addr->0)@.len() == 22 || (addr->0)@.len() == 28 || (
        addr->0)@.len() == 36) ==> r matches Ok(Lookup::Addr(_)),
{
    addr_round_trip(e);
}

/// A row without compression fields stands for a body that is stored as it is.
pub proof fn short_rows_are_plain(e: AddrEntry, v: Seq<u8>)
    requires
        e.logical_len == e.addr.stored_len,
        e.flags == 0,
        e.obj_logical is None,
        v == e.encoded().take(22),
    ensures
        decoded_addr(v) == Some(e),
        e.encoded().len() == 28,
{
    bytes::lemma_le_bytes_len(e.addr.seg_id as nat, 4);
    bytes::lemma_le_bytes_len(e.addr.offset as nat, 8);
    bytes::lemma_le_bytes_len(e.addr.stored_len as nat, 4);
    bytes::lemma_le_bytes_len(e.addr.key_len as nat, 2);
    bytes::lemma_le_bytes_len(e.crc as nat, 4);
    bytes::lemma_le_bytes_len(e.logical_len as nat, 4);
    bytes::lemma_le_bytes_len(e.flags as nat, 2);
    addr_round_trip(e);
    let w = e.encoded();
    assert(v.subrange(0, 4) =~= w.subrange(0, 4));
    assert(v.subrange(4, 12) =~= w.subrange(4, 12));
    assert(v.subrange(12, 16) =~= w.subrange(12, 16));
    assert(v.subrange(16, 18) =~= w.subrange(16, 18));
    assert(v.subrange(18, 22) =~= w.subrange(18, 22));
}

/// The length of a body is that of its inline row, or the one that its address row names; a
/// piece names its object's length as well.
pub proof fn lengths_come_from_the_index(
    l: &Lookup,
    a: DomainResult<(u64, Option<u64>)>,
    b: DomainResult<u64>,
)
    requires
        call_ensures(stat_obj, (l,), a),
        call_ensures(stat, (l,), b),
    ensures
        match *l {
            Lookup::Inline(v) => {
                &&& a == Ok::<(u64, Option<u64>), DomainError>((v@.len() as u64, None))
                &&& b == Ok::<u64, DomainError>(v@.len() as u64)
            },
            Lookup::Addr(e) => {
                &&& a == Ok::<(u64, Option<u64>), DomainError>(
                    (e.logical_len as u64, e.obj_logical),
                )
                &&& b == Ok::<u64, DomainError>(e.logical_len as u64)
            },
            Lookup::Missing => {
                &&& a matches Err(DomainError::NotFound)
                &&& b matches Err(DomainError::NotFound)
            },
        },
{
}

/// Every change of a key leaves it at most one row, and what its old address row pointed at
/// becomes garbage of that row's segment, byte for byte.
pub proof fn changes_leave_one_row(
    data: Vec<u8>,
    entry: &AddrEntry,
    old_row: &Option<Vec<u8>>,
    e: AddrEntry,
    inlined: IndexUpdate,
    addressed: IndexUpdate,
    deleted: IndexUpdate,
)
    requires
        call_ensures(put_inline, (data, old_row), inlined),
        call_ensures(put_addr, (entry, old_row), addressed),
        call_ensures(delete, (old_row,), deleted),
    ensures
        inlined.addr is Remove && (inlined.inline matches RowChange::Insert(v) && v@ == data@),
        addressed.inline is Remove && (addressed.addr matches RowChange::Insert(v) && v@
            == entry.encoded()),
        deleted.addr is Remove && deleted.inline is Remove,
        inlined.bump == deleted.bump && addressed.bump == deleted.bump,
        old_row is None ==> deleted.bump is None,
        old_row is Some && (old_row->0)@ == e.encoded() ==> deleted.bump == Some(
            (e.addr.seg_id, e.addr.stored_len as u64),
        ),
{
    addr_round_trip(e);
    assert(inlined@.addr is Remove && inlined@.inline is Insert);
    assert(addressed@.inline is Remove && addressed@.addr is Insert);
    assert(deleted@.addr is Remove && deleted@.inline is Remove);
}

/// A record that was copied is followed exactly where the key's row still points at the old
/// copy; the new row points at the new one and keeps the object length.
pub proof fn copies_are_followed(
    e: AddrEntry,
    cur: &Option<Vec<u8>>,
    old_addr: &RecordAddr,
    new_addr: &RecordAddr,
    new_crc: u32,
    logical_len: u32,
    flags: u16,
    r: Option<Vec<u8>>,
)
    requires
        call_ensures(move_row, (cur, old_addr, new_addr, new_crc, logical_len, flags), r),
    ensures
        cur is None ==> r is None,
        cur is Some && (cur->0)@ == e.encoded() && (e.addr.seg_id != old_addr.seg_id
            || e.addr.offset != old_addr.offset) ==> r is None,
        cur is Some && (cur->0)@ == e.encoded() && e.addr.seg_id == old_addr.seg_id
            && e.addr.offset == old_addr.offset ==> (r matches Some(row) && decoded_addr(row@)
            == Some(
            AddrEntry {
                addr: *new_addr,
                crc: new_crc,
                logical_len,
                flags,
                obj_logical: e.obj_logical,
            },
        )),
{
    addr_round_trip(e);
    addr_round_trip(
        AddrEntry { addr: *new_addr, crc: new_crc, logical_len, flags, obj_logical: e.obj_logical },
    );
}

/// A record is live exactly where the index points at it.
pub proof fn live_records_are_pointed_at(l: &Lookup, addr: &RecordAddr, r: bool)
    requires
        call_ensures(is_live, (l, addr), r),
    ensures
        match *l {
            Lookup::Addr(e) => r == (e.addr.seg_id == addr.seg_id && e.addr.offset == addr.offset),
            _ => !r,
        },
{
}

/// A row is told its object's length once: the new row differs in nothing else, and a row
/// that names that length already stays.
pub proof fn rows_learn_their_object(
    e: AddrEntry,
    cur: &Option<Vec<u8>>,
    obj: u64,
    r: Option<Vec<u8>>,
)
    requires
        call_ensures(set_obj_logical, (cur, obj), r),
    ensures
        cur is None ==> r is None,
        cur is Some && (cur->0)@ == e.encoded() && e.obj_logical == Some(obj) ==> r is None,
        cur is Some && (cur->0)@ == e.encoded() && e.obj_logical != Some(obj) ==> (r matches Some(
            row,
        ) && decoded_addr(row@) == Some(AddrEntry { obj_logical: Some(obj), ..e })),
{
    addr_round_trip(e);
    addr_round_trip(AddrEntry { obj_logical: Some(obj), ..e });
}

/// A recovered record gets the row it had: its place, its checksum, its length and its
/// flags; the object length comes back where the body is a piece.
pub proof fn recovered_records_get_their_rows(
    r: &RecoveredRecord,
    h: piece::PieceHeader,
    stripe: Seq<u8>,
    e: AddrEntry,
)
    requires
        call_ensures(recovered_entry, (r,), e),
    ensures
        e.addr == r.addr && e.crc == r.crc && e.logical_len == r.logical_len && e.flags == r.flags,
        r.flags == 0 && h.wf() && stripe.len() == h.stripe_len() && r.stored@ == h.encoded()
            + stripe ==> e.obj_logical == Some(h.logical_len),
        r.flags == 0 && r.stored@.len() < 16 ==> e.obj_logical is None,
        r.flags == 0 && r.stored@.len() >= 16 && r.stored@.take(4) != seq![
            0x4fu8,
            0x5a,
            0x45,
            0x43,
        ] ==> e.obj_logical is None,
{
    assert(0u16 & 1u16 == 0u16) by (bit_vector);
    if h.wf() && stripe.len() == h.stripe_len() {
        piece::piece_header_round_trip(h, stripe);
    }
    assert(r.stored@.take(4) =~= r.stored@.subrange(0, 4));
}

/// An address row is the segment, the place, the stored length, the length of the key, the
/// checksum, the full length and the flags; a piece's row has the object's length as well.
pub proof fn rows_have_their_fields(e: &AddrEntry, r: Vec<u8>)
    requires
        call_ensures(encode_addr, (e,), r),
    ensures
        r@.len() == if e.obj_logical is Some {
            36nat
        } else {
            28
        },
        r@.subrange(0, 4) == bytes::le_bytes(e.addr.seg_id as nat, 4),
        r@.subrange(4, 12) == bytes::le_bytes(e.addr.offset as nat, 8),
        r@.subrange(12, 16) == bytes::le_bytes(e.addr.stored_len as nat, 4),
        r@.subrange(16, 18) == bytes::le_bytes(e.addr.key_len as nat, 2),
        r@.subrange(18, 22) == bytes::le_bytes(e.crc as nat, 4),
        r@.subrange(22, 26) == bytes::le_bytes(e.logical_len as nat, 4),
        r@.subrange(26, 28) == bytes::le_bytes(e.flags as nat, 2),
        e.obj_logical is Some ==> r@.subrange(28, 36) == bytes::le_bytes(
            (e.obj_logical->0) as nat,
            8,
        ),
{
    bytes::lemma_le_bytes_len(e.addr.seg_id as nat, 4);
    bytes::lemma_le_bytes_len(e.addr.offset as nat, 8);
    bytes::lemma_le_bytes_len(e.addr.stored_len as nat, 4);
    bytes::lemma_le_bytes_len(e.addr.key_len as nat, 2);
    bytes::lemma_le_bytes_len(e.crc as nat, 4);
    bytes::lemma_le_bytes_len(e.logical_len as nat, 4);
    bytes::lemma_le_bytes_len(e.flags as nat, 2);
    bytes::lemma_le_bytes_len((e.obj_logical->0) as nat, 8);
    assert(r@.subrange(0, 4) =~= bytes::le_bytes(e.addr.seg_id as nat, 4));
    assert(r@.subrange(4, 12) =~= bytes::le_bytes(e.addr.offset as nat, 8));
    assert(r@.subrange(12, 16) =~= bytes::le_bytes(e.addr.stored_len as nat, 4));
    assert(r@.subrange(16, 18) =~= bytes::le_bytes(e.addr.key_len as nat, 2));
    assert(r@.subrange(18, 22) =~= bytes::le_bytes(e.crc as nat, 4));
    assert(r@.subrange(22, 26) =~= bytes::le_bytes(e.logical_len as nat, 4));
    assert(r@.subrange(26, 28) =~= bytes::le_bytes(e.flags as nat, 2));
    if e.obj_logical is Some {
        assert(r@.subrange(28, 36) =~= bytes::le_bytes((e.obj_logical->0) as nat, 8));
    }
}

/// A row of 22, 28 or 36 bytes is read field by field, and no other; what a short row leaves
/// out is that of a body that is stored as it is.
pub proof fn rows_are_read_by_field(v: &[u8], r: Option<AddrEntry>)
    requires
        call_ensures(decode_addr, (v,), r),
    ensures
        r is Some <==> v@.len() == 22 || v@.len() == 28 || v@.len() == 36,
        r is Some ==> ({
            let e = r->0;
            &&& e.addr.seg_id as nat == bytes::le_value(v@.subrange(0, 4))
            &&& e.addr.offset as nat == bytes::le_value(v@.subrange(4, 12))
            &&& e.addr.stored_len as nat == bytes::le_value(v@.subrange(12, 16))
            &&& e.addr.key_len as nat == bytes::le_value(v@.subrange(16, 18))
            &&& e.crc as nat == bytes::le_value(v@.subrange(18, 22))
            &&& v@.len() == 22 ==> e.logical_len == e.addr.stored_len && e.flags == 0
            &&& v@.len() > 22 ==> e.logical_len as nat == bytes::le_value(v@.subrange(22, 26))
                && e.flags as nat == bytes::le_value(v@.subrange(26, 28))
            &&& e.obj_logical is Some <==> v@.len() == 36
            &&& v@.len() == 36 ==> (e.obj_logical->0) as nat == bytes::le_value(
                v@.subrange(28, 36),
            )
        }),
{
    let b = v@;
    if b.len() == 22 || b.len() == 28 || b.len() == 36 {
        bytes::lemma_pow256_values();
        bytes::lemma_le_value_bound(b.subrange(0, 4));
        bytes::lemma_le_value_bound(b.subrange(4, 12));
        bytes::lemma_le_value_bound(b.subrange(12, 16));
        bytes::lemma_le_value_bound(b.subrange(16, 18));
        bytes::lemma_le_value_bound(b.subrange(18, 22));
        if b.len() > 22 {
            bytes::lemma_le_value_bound(b.subrange(22, 26));
            bytes::lemma_le_value_bound(b.subrange(26, 28));
        }
        if b.len() == 36 {
            bytes::lemma_le_value_bound(b.subrange(28, 36));
        }
    }
}

/// A body is stored in its compressed form exactly when that is shorter, and says so by its
/// flag; a body that does not inflate to its full length is refused.
pub proof fn shorter_forms_are_stored(
    data: &[u8],
    compressed: Option<Vec<u8>>,
    r: (Vec<u8>, u16),
    out: Vec<u8>,
    len: u32,
    whole: DomainResult<Vec<u8>>,
)
    requires
        call_ensures(choose_stored, (data, compressed), r),
        call_ensures(check_inflated, (out, len), whole),
    ensures
        compressed is Some && (compressed->0)@.len() < data@.len() ==> r.0@ == (compressed->0)@
            && r.1 == FLAG_ZSTD,
        compressed is None || (compressed->0)@.len() >= data@.len() ==> r.0@ == data@ && r.1 == 0,
        r.0@.len() <= data@.len(),
        whole is Ok <==> out@.len() == len,
        whole is Ok ==> (whole->Ok_0)@ == out@,
        FLAG_ZSTD == 1,
{
}

/// The bytes that a segment has lost grow by those that a change leaves behind.
pub proof fn losses_add_up(cur: Option<u64>, n: u64, r: u64)
    requires
        call_ensures(bump_in, (cur, n), r),
    ensures
        cur is None ==> r == n,
        cur is Some ==> r == cur->0 + n,
{
}

} // verus!
