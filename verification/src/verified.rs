//! Outboard records: hash trees that let a range of a body be verified.
use vstd::prelude::*;
use vstd::string::*;
use crate::bytes;
use std::io::Read;
use crate::domain::{BlockKey, DomainError, DomainResult, ErrorView};
use crate::domain;

verus! {

/// The prefix of outboard keys: `/ozd/ob3`.
pub const OB_PREFIX: [u8; 8] = [0x2f, 0x6f, 0x7a, 0x64, 0x2f, 0x6f, 0x62, 0x33];

/// The same as a sequence.
pub open spec fn ob_prefix() -> Seq<u8> {
    seq![0x2fu8, 0x6f, 0x7a, 0x64, 0x2f, 0x6f, 0x62, 0x33]
}

/// Which bodies get an outboard.
#[derive(Clone, Copy, Debug, PartialEq, Eq, Structural)]
pub struct ObConfig {
    /// smaller bodies get none
    pub min_size: usize,
}

impl Default for ObConfig {
    fn default() -> (r: Self)
        ensures
            r.min_size == 256 * 1024,
    {
        ObConfig { min_size: 262144 }
    }
}

/// The key of a body's outboard.
pub open spec fn outboard_key(key: Seq<u8>) -> Seq<u8> {
    ob_prefix() + key
}

/// Whether a key is that of an outboard.
pub open spec fn is_outboard(key: Seq<u8>) -> bool {
    bytes::has_prefix(key, ob_prefix())
}

pub fn ob_key(key: &BlockKey) -> (r: BlockKey)
    ensures
        r@ == outboard_key(key@),
{
    let p = OB_PREFIX;
    let mut k: Vec<u8> = Vec::new();
    bytes::push_all(&mut k, p.as_slice());
    bytes::push_all(&mut k, key.as_bytes());
    assert(p@ =~= ob_prefix());
    assert(k@ =~= outboard_key(key@));
    BlockKey(k)
}

pub fn is_ob_key(key: &BlockKey) -> (r: bool)
    ensures
        r == is_outboard(key@),
{
    let p = OB_PREFIX;
    assert(p@ =~= ob_prefix());
    bytes::starts_with(key.as_bytes(), p.as_slice())
}

/// The outboard encoding of a body and its root hash.
pub uninterp spec fn bao_outboard(body: Seq<u8>) -> (Seq<u8>, Seq<u8>);

/// The slice of a range, cut from a body along its outboard, or the error's text.
pub uninterp spec fn bao_extracted(
    body: Seq<u8>,
    outboard: Seq<u8>,
    start: u64,
    len: u64,
) -> Result<Seq<u8>, Seq<char>>;

/// The bytes of a range that a slice proves under a root hash, or the error's text.
pub uninterp spec fn bao_decoded(
    slice: Seq<u8>,
    root: Seq<u8>,
    start: u64,
    len: u64,
) -> Result<Seq<u8>, Seq<char>>;

/// The part of a body that lies within `start .. start + len`.
pub open spec fn range_of(body: Seq<u8>, start: u64, len: u64) -> Seq<u8> {
    let from = if start < body.len() {
        start as int
    } else {
        body.len() as int
    };
    let to = if start + len < body.len() {
        start + len
    } else {
        body.len() as int
    };
    body.subrange(from, to)
}

/// Whether the length that an encoding opens with is one a tree can have: the
/// decoder keeps at most fifty hashes, which is enough for 2^63 bytes.
pub open spec fn has_sane_length(encoding: Seq<u8>) -> bool {
    encoding.len() >= 8 ==> bytes::le_value(encoding.subrange(0, 8)) <= 0x8000_0000_0000_0000
}

/// Whether every slice of a body, extracted along a tree, decodes under a root hash to
/// the range asked for.
pub open spec fn slices_prove(body: Seq<u8>, tree: Seq<u8>, root: Seq<u8>) -> bool {
    forall|start: u64, len: u64|
        (#[trigger] bao_extracted(body, tree, start, len)) is Ok && bao_decoded(
            bao_extracted(body, tree, start, len)->Ok_0,
            root,
            start,
            len,
        ) == Ok::<Seq<u8>, Seq<char>>(range_of(body, start, len))
}

/// `abao::encode::outboard`: the encoding, which opens with the body's length in
/// eight bytes, and the 32-byte root hash. A slice extracted from the same body
/// along it decodes under that hash to the range asked for, cut at the body's end.
#[verifier::external_body]
fn outboard(body: &[u8]) -> (r: (Vec<u8>, Vec<u8>))
    ensures
        (r.0@, r.1@) == bao_outboard(body@),
        r.1@.len() == 32,
        r.0@.len() >= 8,
        bytes::le_value(r.0@.subrange(0, 8)) == body@.len(),
        slices_prove(body@, r.0@, r.1@),
{
    let (tree, hash) = abao::encode::outboard(body);
    (tree, hash.as_bytes().to_vec())
}

/// `abao::encode::SliceExtractor::new_outboard` read to its end. A slice opens with
/// the length that the outboard opens with.
#[verifier::external_body]
fn extract(body: &[u8], outboard: &[u8], start: u64, len: u64) -> (r: Result<Vec<u8>, String>)
    ensures
        text_result(r) == bao_extracted(body@, outboard@, start, len),
        r matches Ok(s) ==> s@.len() >= 8 && outboard@.len() >= 8 && s@.subrange(0, 8)
            == outboard@.subrange(0, 8),
{
    let mut slice = Vec::new();
    let mut extractor = abao::encode::SliceExtractor::new_outboard(
        std::io::Cursor::new(body),
        std::io::Cursor::new(outboard),
        start,
        len,
    );
    match extractor.read_to_end(&mut slice) {
        Ok(_) => Ok(slice),
        Err(e) => Err(e.to_string()),
    }
}

/// `abao::decode::SliceDecoder::new` read to its end. It panics when the slice
/// announces a tree deeper than its stack, so such slices are left out.
#[verifier::external_body]
fn decode(slice: &[u8], root: &[u8; 32], start: u64, len: u64) -> (r: Result<Vec<u8>, String>)
    requires
        has_sane_length(slice@),
    ensures
        text_result(r) == bao_decoded(slice@, root@, start, len),
{
    let mut out = Vec::new();
    let hash = abao::Hash::from(*root);
    match abao::decode::SliceDecoder::new(slice, &hash, start, len).read_to_end(&mut out) {
        Ok(_) => Ok(out),
        Err(e) => Err(e.to_string()),
    }
}

/// A result over bytes and an error's text with both sides taken by value.
pub open spec fn text_result(r: Result<Vec<u8>, String>) -> Result<Seq<u8>, Seq<char>> {
    match r {
        Ok(v) => Ok(v@),
        Err(e) => Err(e@),
    }
}

/// The step of a verified read that an outside error came from.
#[derive(Clone, Copy, Debug, PartialEq, Eq, Structural)]
pub enum SliceStage {
    /// cutting the slice
    Extract,
    /// checking it on behalf of a reader of the store
    Verify,
    /// checking a slice that is handed out or came from elsewhere
    Proof,
}

/// What a step's result means to the caller.
pub open spec fn stage_result(
    r: Result<Seq<u8>, Seq<char>>,
    stage: SliceStage,
) -> Result<Seq<u8>, ErrorView> {
    match r {
        Ok(v) => Ok(v),
        Err(e) => Err(
            match stage {
                SliceStage::Extract => ErrorView::Io("ob3 extract: "@ + e),
                SliceStage::Verify => ErrorView::IntegrityViolation("ob3 verify: "@ + e),
                SliceStage::Proof => ErrorView::IntegrityViolation("bao slice verify: "@ + e),
            },
        ),
    }
}

/// Turns a step's outcome into the store's.
pub fn at_stage(r: Result<Vec<u8>, String>, stage: SliceStage) -> (o: DomainResult<Vec<u8>>)
    ensures
        domain::bytes_result(o) == stage_result(text_result(r), stage),
{
    match r {
        Ok(v) => Ok(v),
        Err(e) => Err(
            match stage {
                SliceStage::Extract => {
                    let mut t = "ob3 extract: ".to_owned();
                    t.append(e.as_str());
                    DomainError::Io(t)
                },
                SliceStage::Verify => {
                    let mut t = "ob3 verify: ".to_owned();
                    t.append(e.as_str());
                    DomainError::IntegrityViolation(t)
                },
                SliceStage::Proof => {
                    let mut t = "bao slice verify: ".to_owned();
                    t.append(e.as_str());
                    DomainError::IntegrityViolation(t)
                },
            },
        ),
    }
}

/// The bytes a verified read of a range returns, given the outboard record.
pub open spec fn verified_read(
    body: Seq<u8>,
    record: Seq<u8>,
    start: u64,
    len: u64,
) -> Result<Seq<u8>, ErrorView> {
    if record.len() < 32 {
        Err(ErrorView::IntegrityViolation("ob3: record too short"@))
    } else {
        match stage_result(
            bao_extracted(body, record.skip(32), start, len),
            SliceStage::Extract,
        ) {
            Err(e) => Err(e),
            Ok(s) => stage_result(
                bao_decoded(s, record.take(32), start, len),
                SliceStage::Verify,
            ),
        }
    }
}

/// The slice and root hash handed out for a range.
pub open spec fn proved_slice(
    body: Seq<u8>,
    record: Seq<u8>,
    start: u64,
    len: u64,
) -> Result<(Seq<u8>, Seq<u8>), ErrorView> {
    if record.len() < 32 {
        Err(ErrorView::IntegrityViolation("ob3: record too short"@))
    } else {
        match stage_result(
            bao_extracted(body, record.skip(32), start, len),
            SliceStage::Extract,
        ) {
            Err(e) => Err(e),
            Ok(s) => match stage_result(
                bao_decoded(s, record.take(32), start, len),
                SliceStage::Proof,
            ) {
                Err(e) => Err(e),
                Ok(_) => Ok((s, record.take(32))),
            },
        }
    }
}

/// Whether the length inside an outboard record is one a tree can have.
pub open spec fn record_is_sane(record: Seq<u8>) -> bool {
    record.len() >= 32 ==> has_sane_length(record.skip(32))
}

/// Whether a record can be read along.
pub fn record_sane(record: &[u8]) -> (r: bool)
    ensures
        r == record_is_sane(record@),
{
    if record.len() < 40 {
        return true;
    }
    let n: u64 = bytes::read_le(record, 32, 8);
    assert(record@.skip(32).subrange(0, 8) =~= record@.subrange(32, 40));
    n <= 0x8000_0000_0000_0000
}

/// The outboard record of a body: its root hash, then the encoding. Any range of
/// the body, read back along its record, is the range of the body.
pub fn make_outboard(body: &[u8]) -> (r: Vec<u8>)
    ensures
        r@ == bao_outboard(body@).1 + bao_outboard(body@).0,
        bao_outboard(body@).1.len() == 32,
        body@.len() <= 0x8000_0000_0000_0000 ==> record_is_sane(r@),
        forall|start: u64, len: u64|
            (#[trigger] verified_read(body@, r@, start, len)) == Ok::<Seq<u8>, ErrorView>(
                range_of(body@, start, len),
            ),
        forall|start: u64, len: u64|
            (#[trigger] proved_slice(body@, r@, start, len)) is Ok,
{
    let (tree, hash) = outboard(body);
    let mut v: Vec<u8> = Vec::new();
    bytes::push_all(&mut v, hash.as_slice());
    bytes::push_all(&mut v, tree.as_slice());
    assert(v@.take(32) =~= hash@);
    assert(v@.skip(32) =~= tree@);
    v
}

fn root_of(record: &[u8]) -> (r: [u8; 32])
    requires
        record@.len() >= 32,
    ensures
        r@ == record@.take(32),
{
    let mut root = [0u8;32];
    let mut i: usize = 0;
    while i < 32
        invariant
            i <= 32,
            root@.len() == 32,
            record@.len() >= 32,
            root@.take(i as int) =~= record@.take(i as int),
        decreases 32 - i,
    {
        root[i] = record[i];
        i = i + 1;
    }
    assert(root@.take(32) =~= root@);
    root
}

/// Reads a range of a body and checks the bytes up to the root hash of its record.
/// Nothing is returned when a hash on the way differs.
pub fn verified_slice(
    body: &[u8],
    ob_record: &[u8],
    start: u64,
    len: u64,
) -> (r: DomainResult<Vec<u8>>)
    requires
        record_is_sane(ob_record@),
    ensures
        domain::bytes_result(r) == verified_read(body@, ob_record@, start, len),
{
    if ob_record.len() < 32 {
        return Err(DomainError::IntegrityViolation("ob3: record too short".to_owned()));
    }
    let root = root_of(ob_record);
    let tree = bytes::copy_range(ob_record, 32, ob_record.len());
    assert(tree@ =~= ob_record@.skip(32));
    match at_stage(extract(body, tree.as_slice(), start, len), SliceStage::Extract) {
        Err(e) => Err(e),
        Ok(slice) => at_stage(decode(slice.as_slice(), &root, start, len), SliceStage::Verify),
    }
}

/// The slice of a range, for a reader that trusts only the root hash. It is checked
/// before it is handed out.
pub fn bao_slice(
    body: &[u8],
    ob_record: &[u8],
    start: u64,
    len: u64,
) -> (r: DomainResult<(Vec<u8>, [u8; 32])>)
    requires
        record_is_sane(ob_record@),
    ensures
        match r {
            Ok(p) => proved_slice(body@, ob_record@, start, len) == Ok::<
                (Seq<u8>, Seq<u8>),
                ErrorView,
            >((p.0@, p.1@)),
            Err(e) => proved_slice(body@, ob_record@, start, len) == Err::<
                (Seq<u8>, Seq<u8>),
                ErrorView,
            >(e@),
        },
{
    if ob_record.len() < 32 {
        return Err(DomainError::IntegrityViolation("ob3: record too short".to_owned()));
    }
    let root = root_of(ob_record);
    let tree = bytes::copy_range(ob_record, 32, ob_record.len());
    assert(tree@ =~= ob_record@.skip(32));
    match at_stage(extract(body, tree.as_slice(), start, len), SliceStage::Extract) {
        Err(e) => Err(e),
        Ok(slice) => match verify_bao_slice(slice.as_slice(), &root, start, len) {
            Err(e) => Err(e),
            Ok(_) => Ok((slice, root)),
        },
    }
}

/// Checks a slice against a root hash and returns the bytes of the range.
pub fn verify_bao_slice(
    slice: &[u8],
    root: &[u8; 32],
    start: u64,
    len: u64,
) -> (r: DomainResult<Vec<u8>>)
    requires
        has_sane_length(slice@),
    ensures
        domain::bytes_result(r) == stage_result(
            bao_decoded(slice@, root@, start, len),
            SliceStage::Proof,
        ),
{
    at_stage(decode(slice, root, start, len), SliceStage::Proof)
}

/// A slice that was handed out is accepted under the root handed out with it.
pub proof fn handed_out_slices_verify(body: Seq<u8>, record: Seq<u8>, start: u64, len: u64)
    requires
        proved_slice(body, record, start, len) is Ok,
    ensures
        ({
            let p = proved_slice(body, record, start, len)->Ok_0;
            stage_result(bao_decoded(p.0, p.1, start, len), SliceStage::Proof) is Ok
        }),
        verified_read(body, record, start, len) is Ok,
{
}

/// Every outboard key is recognised, and names one body.
pub proof fn outboard_keys_are_apart(a: Seq<u8>, b: Seq<u8>)
    ensures
        is_outboard(outboard_key(a)),
        outboard_key(a) == outboard_key(b) ==> a == b,
{
    assert(outboard_key(a).subrange(0, 8) =~= ob_prefix());
    if outboard_key(a) == outboard_key(b) {
        assert(a =~= outboard_key(a).skip(8));
        assert(b =~= outboard_key(b).skip(8));
    }
}

/// A verified read along a tree that proves the body gives exactly the range asked for, at any
/// length, cut at the end of the body; along a record that is too short it gives an error.
pub proof fn verified_ranges_are_exact(
    body: &[u8],
    record: &[u8],
    start: u64,
    len: u64,
    root: Seq<u8>,
    tree: Seq<u8>,
    r: DomainResult<Vec<u8>>,
)
    requires
        record_is_sane(record@),
        call_ensures(verified_slice, (body, record, start, len), r),
        root.len() == 32,
        slices_prove(body@, tree, root),
    ensures
        record@ == root + tree && start + len <= body@.len() ==> (r matches Ok(b) && b@
            == body@.subrange(start as int, start + len)),
        record@ == root + tree && start <= body@.len() < start + len ==> (r matches Ok(b) && b@
            == body@.skip(start as int)),
        record@ == root + tree && body@.len() <= start ==> (r matches Ok(b) && b@.len() == 0),
        record@.len() < 32 ==> (r matches Err(DomainError::IntegrityViolation(_))),
{
    if record@ == root + tree {
        assert(record@.take(32) =~= root);
        assert(record@.skip(32) =~= tree);
        assert(bao_extracted(body@, tree, start, len) is Ok);
        let v = range_of(body@, start, len);
        if start + len > body@.len() && start <= body@.len() {
            assert(v =~= body@.skip(start as int));
        }
    }
}

/// A slice is handed out with the root of its record, and is the one cut along the record.
pub proof fn slices_come_with_their_root(
    body: &[u8],
    record: &[u8],
    start: u64,
    len: u64,
    root: Seq<u8>,
    tree: Seq<u8>,
    r: DomainResult<(Vec<u8>, [u8; 32])>,
)
    requires
        record_is_sane(record@),
        call_ensures(bao_slice, (body, record, start, len), r),
        root.len() == 32,
        slices_prove(body@, tree, root),
        record@ == root + tree,
    ensures
        r matches Ok(p) && p.1@ == root && bao_extracted(body@, tree, start, len) == Ok::<
            Seq<u8>,
            Seq<char>,
        >(p.0@),
{
    assert(record@.take(32) =~= root);
    assert(record@.skip(32) =~= tree);
    assert(bao_extracted(body@, tree, start, len) is Ok);
}

/// What a check of a slice gives is what the slice proves, whole; a slice that proves nothing
/// is an integrity violation.
pub proof fn checks_give_what_is_proved(
    slice: &[u8],
    root: &[u8; 32],
    start: u64,
    len: u64,
    r: DomainResult<Vec<u8>>,
)
    requires
        has_sane_length(slice@),
        call_ensures(verify_bao_slice, (slice, root, start, len), r),
    ensures
        match bao_decoded(slice@, root@, start, len) {
            Ok(b) => r matches Ok(v) && v@ == b,
            Err(_) => r matches Err(DomainError::IntegrityViolation(_)),
        },
{
}

/// The outboard of a key lies under a name of its own in front of the key.
pub proof fn outboards_lie_beside_their_bodies(key: &BlockKey, r: BlockKey, ob: bool)
    requires
        call_ensures(ob_key, (key,), r),
        call_ensures(is_ob_key, (key,), ob),
    ensures
        r@.len() == key@.len() + 8,
        r@.skip(8) == key@,
        is_outboard(r@),
        ob ==> key@.len() >= 8,
        key@.len() >= 8 ==> (ob <==> key@.take(8) == r@.take(8)),
{
    assert(r@.skip(8) =~= key@);
    assert(r@.take(8) =~= ob_prefix());
    assert(r@.subrange(0, 8) =~= ob_prefix());
    if key@.len() >= 8 {
        assert(key@.take(8) =~= key@.subrange(0, 8));
    }
}

/// A record is refused only for a length that no tree can have.
pub proof fn sane_records_are_accepted(record: &[u8], r: bool)
    requires
        call_ensures(record_sane, (record,), r),
    ensures
        record@.len() < 40 ==> r,
        record@.len() >= 40 ==> (r <==> bytes::le_value(record@.subrange(32, 40))
            <= 0x8000_0000_0000_0000),
{
    if record@.len() >= 40 {
        assert(record@.skip(32).subrange(0, 8) =~= record@.subrange(32, 40));
    }
}

} // verus!
