//! Core vocabulary of the store: keys, shards, errors, reports.
use vstd::prelude::*;
use vstd::string::*;

verus! {

/// A block key: an arbitrary byte string, such as a datastore path.
#[derive(Debug, PartialEq, Eq, PartialOrd, Ord, Hash)]
pub struct BlockKey(pub Vec<u8>);

impl View for BlockKey {
    type V = Seq<u8>;

    open spec fn view(&self) -> Seq<u8> {
        self.0@
    }
}

impl BlockKey {
    pub fn new(bytes: Vec<u8>) -> (r: Self)
        ensures
            r@ == bytes@,
    {
        BlockKey(bytes)
    }

    pub fn as_bytes(&self) -> (r: &[u8])
        ensures
            r@ == self@,
    {
        self.0.as_slice()
    }

    pub fn len(&self) -> (r: usize)
        ensures
            r == self@.len(),
    {
        self.0.len()
    }

    pub fn is_empty(&self) -> (r: bool)
        ensures
            r == (self@.len() == 0),
    {
        self.0.is_empty()
    }

    /// The key spelled by the UTF-8 bytes of `s`.
    pub fn from_text(s: &str) -> (r: Self)
        ensures
            r@ == s.spec_bytes(),
    {
        let b = s.as_bytes();
        BlockKey(crate::bytes::copy_range(b, 0, b.len()))
    }

    /// Whether two keys hold the same bytes.
    pub fn same(&self, other: &BlockKey) -> (r: bool)
        ensures
            r == (self@ == other@),
    {
        crate::bytes::same_bytes(self.0.as_slice(), other.0.as_slice())
    }
}

impl Clone for BlockKey {
    fn clone(&self) -> (r: Self)
        ensures
            r@ == self@,
    {
        BlockKey(crate::bytes::copy_range(self.0.as_slice(), 0, self.0.len()))
    }
}

/// The key spelled by the UTF-8 bytes of a text.
impl<'a> From<&'a str> for BlockKey {
    fn from(s: &'a str) -> (r: Self)
        ensures
            r@ == s.spec_bytes(),
    {
        BlockKey::from_text(s)
    }
}

impl<'a> vstd::std_specs::convert::FromSpecImpl<&'a str> for BlockKey {
    open spec fn obeys_from_spec() -> bool {
        false
    }

    open spec fn from_spec(s: &'a str) -> Self {
        arbitrary()
    }
}

/// A shard (one disk) within the pool.
#[derive(Clone, Copy, Debug, PartialEq, Eq, PartialOrd, Ord, Hash, Structural)]
pub struct ShardId(pub u16);

/// Health of a shard as placement sees it.
#[derive(Clone, Copy, Debug, PartialEq, Eq, Structural)]
pub enum ShardStatus {
    Online,
    Suspect,
    Faulted,
}

impl Default for ShardStatus {
    fn default() -> (r: Self)
        ensures
            r == ShardStatus::Online,
    {
        ShardStatus::Online
    }
}

/// Size and free space of a shard, in bytes.
#[derive(Clone, Copy, Debug, PartialEq, Eq, Structural)]
pub struct Capacity {
    pub total_bytes: u64,
    pub free_bytes: u64,
}

impl Default for Capacity {
    fn default() -> (r: Self)
        ensures
            r.total_bytes == 0,
            r.free_bytes == 0,
    {
        Capacity { total_bytes: 0, free_bytes: 0 }
    }
}

/// What can go wrong in the store.
#[derive(Debug)]
pub enum DomainError {
    NotFound,
    ShardUnavailable(ShardId),
    IntegrityViolation(String),
    QuorumNotReached { ok: usize, want: usize },
    Io(String),
    Corrupt(String),
}

/// A [`DomainError`] with its text taken by value.
pub ghost enum ErrorView {
    NotFound,
    ShardUnavailable(ShardId),
    IntegrityViolation(Seq<char>),
    QuorumNotReached(nat, nat),
    Io(Seq<char>),
    Corrupt(Seq<char>),
}

impl View for DomainError {
    type V = ErrorView;

    open spec fn view(&self) -> ErrorView {
        match *self {
            DomainError::NotFound => ErrorView::NotFound,
            DomainError::ShardUnavailable(s) => ErrorView::ShardUnavailable(s),
            DomainError::IntegrityViolation(t) => ErrorView::IntegrityViolation(t@),
            DomainError::QuorumNotReached { ok, want } => ErrorView::QuorumNotReached(
                ok as nat,
                want as nat,
            ),
            DomainError::Io(t) => ErrorView::Io(t@),
            DomainError::Corrupt(t) => ErrorView::Corrupt(t@),
        }
    }
}

impl Clone for DomainError {
    fn clone(&self) -> (r: Self)
        ensures
            r@ == self@,
    {
        match self {
            DomainError::NotFound => DomainError::NotFound,
            DomainError::ShardUnavailable(s) => DomainError::ShardUnavailable(*s),
            DomainError::IntegrityViolation(t) => DomainError::IntegrityViolation(t.clone()),
            DomainError::QuorumNotReached { ok, want } => DomainError::QuorumNotReached {
                ok: *ok,
                want: *want,
            },
            DomainError::Io(t) => DomainError::Io(t.clone()),
            DomainError::Corrupt(t) => DomainError::Corrupt(t.clone()),
        }
    }
}

pub type DomainResult<T> = Result<T, DomainError>;

/// The text an error is reported with.
pub open spec fn error_text(e: ErrorView) -> Seq<char> {
    match e {
        ErrorView::NotFound => "block not found"@,
        ErrorView::ShardUnavailable(s) => "shard ShardId("@ + crate::text::dec_chars(s.0 as nat)
            + ") unavailable"@,
        ErrorView::IntegrityViolation(t) => "integrity violation: "@ + t,
        ErrorView::QuorumNotReached(ok, want) => "write quorum not reached: "@
            + crate::text::dec_chars(ok) + " < "@ + crate::text::dec_chars(want),
        ErrorView::Io(t) => "io: "@ + t,
        ErrorView::Corrupt(t) => "corrupt: "@ + t,
    }
}

impl DomainError {
    /// The text the error is reported with.
    pub fn message(&self) -> (r: String)
        ensures
            r@ == error_text(self@),
    {
        match self {
            DomainError::NotFound => "block not found".to_owned(),
            DomainError::ShardUnavailable(s) => {
                let mut t = "shard ShardId(".to_owned();
                crate::text::push_dec(&mut t, s.0 as u64);
                t.append(") unavailable");
                t
            },
            DomainError::IntegrityViolation(m) => {
                let mut t = "integrity violation: ".to_owned();
                t.append(m.as_str());
                t
            },
            DomainError::QuorumNotReached { ok, want } => {
                let mut t = "write quorum not reached: ".to_owned();
                crate::text::push_dec(&mut t, *ok as u64);
                t.append(" < ");
                crate::text::push_dec(&mut t, *want as u64);
                t
            },
            DomainError::Io(m) => {
                let mut t = "io: ".to_owned();
                t.append(m.as_str());
                t
            },
            DomainError::Corrupt(m) => {
                let mut t = "corrupt: ".to_owned();
                t.append(m.as_str());
                t
            },
        }
    }
}

/// A result over bytes with both sides taken by value.
pub open spec fn bytes_result(r: DomainResult<Vec<u8>>) -> Result<Seq<u8>, ErrorView> {
    match r {
        Ok(v) => Ok(v@),
        Err(e) => Err(e@),
    }
}

/// What one garbage-collection pass did.
#[derive(Clone, Copy, Debug, PartialEq, Eq)]
pub struct GcReport {
    /// the rewritten segment; none when no segment held enough garbage
    pub victim_seg: Option<u32>,
    /// live records moved to the active segment
    pub live_moved: usize,
    /// bytes freed by removing the segment's file
    pub reclaimed_bytes: u64,
    /// segments removed because no index row refers to them
    pub orphans_removed: u32,
    /// bytes freed by removing those
    pub orphan_bytes: u64,
}

impl Default for GcReport {
    fn default() -> (r: Self)
        ensures
            r.victim_seg is None,
            r.live_moved == 0,
            r.reclaimed_bytes == 0,
            r.orphans_removed == 0,
            r.orphan_bytes == 0,
    {
        GcReport {
            victim_seg: None,
            live_moved: 0,
            reclaimed_bytes: 0,
            orphans_removed: 0,
            orphan_bytes: 0,
        }
    }
}

/// One step of a deep scrub over a shard.
#[derive(Debug)]
pub struct ScrubStep {
    pub checked: u64,
    /// bytes of bodies read
    pub bytes: u64,
    /// keys whose body failed verification
    pub corrupt: Vec<BlockKey>,
    pub last_key: Option<BlockKey>,
    pub done: bool,
}

/// Result of comparing the index with the segment files.
#[derive(Debug)]
pub struct StructureReport {
    /// distinct segments the index refers to
    pub segments_referenced: usize,
    /// segments referred to whose file is gone
    pub segments_missing: Vec<u32>,
    /// keys that point into missing segments
    pub keys_at_risk: u64,
    /// segment files no index row refers to
    pub orphan_segments: Vec<u32>,
}

impl StructureReport {
    /// Healthy when no referenced segment is missing.
    pub fn is_healthy(&self) -> (r: bool)
        ensures
            r == (self.segments_missing@.len() == 0),
    {
        self.segments_missing.is_empty()
    }
}

/// An error tells its whole story: the kind in front, and all of the text or the numbers that
/// came with it.
pub proof fn errors_tell_all(e: &DomainError, r: String)
    requires
        call_ensures(DomainError::message, (e,), r),
    ensures
        match *e {
            DomainError::NotFound => r@ == "block not found"@,
            DomainError::ShardUnavailable(s) => r@ == "shard ShardId("@ + crate::text::dec_chars(
                s.0 as nat,
            ) + ") unavailable"@,
            DomainError::IntegrityViolation(t) => r@ == "integrity violation: "@ + t@,
            DomainError::QuorumNotReached { ok, want } => r@ == "write quorum not reached: "@
                + crate::text::dec_chars(ok as nat) + " < "@ + crate::text::dec_chars(want as nat),
            DomainError::Io(t) => r@ == "io: "@ + t@,
            DomainError::Corrupt(t) => r@ == "corrupt: "@ + t@,
        },
{
}

/// A store is healthy exactly when no segment is missing.
pub proof fn missing_segments_are_ill(s: &StructureReport, r: bool)
    requires
        call_ensures(StructureReport::is_healthy, (s,), r),
    ensures
        r <==> s.segments_missing@.len() == 0,
{
}

} // verus!
