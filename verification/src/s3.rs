//! The S3 gateway: what each request asks of the store and what is answered.
//!
//! Datastore keys become object keys, block bodies become object bodies. Put, get,
//! head, delete and the second version of list are answered.
use vstd::prelude::*;
use vstd::string::*;
use crate::bytes;
use crate::digest;
use crate::domain::{BlockKey, DomainError, DomainResult, ErrorView};
use crate::domain;
use crate::sigv4::{verify, Headers, SigV4Config};
use crate::sigv4;
use crate::text;
use crate::verified;

verus! {

/// A header of an answer.
#[derive(Debug)]
pub struct Field {
    pub name: String,
    pub value: String,
}

/// An answer: status code, headers and body.
#[derive(Debug)]
pub struct Reply {
    pub status: u16,
    pub headers: Vec<Field>,
    pub body: Vec<u8>,
}

/// A [`Reply`] taken by value.
#[verifier::ext_equal]
pub ghost struct ReplyView {
    pub status: u16,
    pub headers: Seq<(Seq<char>, Seq<char>)>,
    pub body: Seq<u8>,
}

impl View for Reply {
    type V = ReplyView;

    open spec fn view(&self) -> ReplyView {
        ReplyView {
            status: self.status,
            headers: Seq::new(
                self.headers@.len(),
                |i: int| (self.headers@[i].name@, self.headers@[i].value@),
            ),
            body: self.body@,
        }
    }
}

fn field_of(name: &str, value: &str) -> (r: Field)
    ensures
        r.name@ == name@,
        r.value@ == value@,
{
    Field { name: name.to_owned(), value: value.to_owned() }
}

fn text_bytes(s: &str) -> (r: Vec<u8>)
    ensures
        r@ == s.spec_bytes(),
{
    let b = s.as_bytes();
    bytes::copy_range(b, 0, b.len())
}

/// A document of type `application/xml`.
pub open spec fn xml_reply(status: u16, body: Seq<char>) -> ReplyView {
    ReplyView {
        status,
        headers: seq![("content-type"@, "application/xml"@)],
        body: vstd::utf8::encode_utf8(body),
    }
}

fn xml_answer(status: u16, body: &str) -> (r: Reply)
    ensures
        r@ == xml_reply(status, body@),
{
    let r = Reply {
        status,
        headers: vec![field_of("content-type", "application/xml")],
        body: text_bytes(body),
    };
    assert(r@ =~= xml_reply(status, body@));
    r
}

/// An answer without headers and body.
pub open spec fn bare_reply(status: u16) -> ReplyView {
    ReplyView { status, headers: Seq::empty(), body: Seq::empty() }
}

fn bare(status: u16) -> (r: Reply)
    ensures
        r@ == bare_reply(status),
{
    let r = Reply { status, headers: Vec::new(), body: Vec::new() };
    assert(r@ =~= bare_reply(status));
    r
}

/// The document an error is reported with.
pub open spec fn error_document(s3code: Seq<char>, msg: Seq<char>) -> Seq<char> {
    "<?xml version=\"1.0\" encoding=\"UTF-8\"?><Error><Code>"@ + s3code + "</Code><Message>"@ + msg
        + "</Message></Error>"@
}

/// An error of the protocol.
pub fn s3_error(status: u16, s3code: &str, msg: &str) -> (r: Reply)
    ensures
        r@ == xml_reply(status, error_document(s3code@, msg@)),
{
    let mut t = "<?xml version=\"1.0\" encoding=\"UTF-8\"?><Error><Code>".to_owned();
    t.append(s3code);
    t.append("</Code><Message>");
    t.append(msg);
    t.append("</Message></Error>");
    xml_answer(status, t.as_str())
}

/// What an error of the store is answered with. A store that shuts down is unavailable,
/// so that clients try again elsewhere.
pub open spec fn error_reply(e: ErrorView) -> ReplyView {
    match e {
        ErrorView::NotFound => xml_reply(404, error_document("NoSuchKey"@, "not found"@)),
        ErrorView::IntegrityViolation(m) => xml_reply(500, error_document("InternalError"@, m)),
        ErrorView::Io(m) => if bytes::has_prefix(m, "shutting down"@) {
            xml_reply(503, error_document("ServiceUnavailable"@, domain::error_text(e)))
        } else {
            xml_reply(500, error_document("InternalError"@, domain::error_text(e)))
        },
        _ => xml_reply(500, error_document("InternalError"@, domain::error_text(e))),
    }
}

pub fn map_err(e: &DomainError) -> (r: Reply)
    ensures
        r@ == error_reply(e@),
{
    match e {
        DomainError::NotFound => s3_error(404, "NoSuchKey", "not found"),
        DomainError::IntegrityViolation(m) => s3_error(500, "InternalError", m.as_str()),
        DomainError::Io(m) => {
            if text::has_prefix(
                text::chars(m.as_str()).as_slice(),
                text::chars("shutting down").as_slice(),
            ) {
                s3_error(503, "ServiceUnavailable", e.message().as_str())
            } else {
                s3_error(500, "InternalError", e.message().as_str())
            }
        },
        _ => s3_error(500, "InternalError", e.message().as_str()),
    }
}

/// What a refused request is answered with; a request that is not refused goes on to the
/// store.
pub open spec fn refusal(verdict: Result<(), Seq<char>>) -> Option<ReplyView> {
    match verdict {
        Ok(_) => None,
        Err(e) => Some(xml_reply(403, error_document("SignatureDoesNotMatch"@, e))),
    }
}

/// An answer that may be there, by value.
pub open spec fn reply_view(r: Option<Reply>) -> Option<ReplyView> {
    match r {
        Some(x) => Some(x@),
        None => None,
    }
}

/// Checks a request's signature, its body included, before the store is asked.
pub fn check_request(
    cfg: &SigV4Config,
    method: &str,
    raw_path: &str,
    raw_query: &str,
    headers: &Headers,
    body: &[u8],
    now: i64,
) -> (r: Option<Reply>)
    ensures
        reply_view(r) == refusal(
            sigv4::verdict(
                *cfg,
                (sigv4::RequestView {
                    method: method@,
                    path: raw_path@,
                    query: raw_query@,
                    headers: headers@,
                    body_sha: digest::hex_of(digest::sha256_of(body@)),
                }),
                now as int,
            ),
        ),
{
    let sha = digest::hex(digest::sha256(body).as_slice());
    match verify(cfg, method, raw_path, raw_query, headers, sha.as_str(), now) {
        Ok(_) => None,
        Err(e) => Some(s3_error(403, "SignatureDoesNotMatch", e.as_str())),
    }
}

/// What a client over its limit is answered with.
pub open spec fn limit_reply() -> ReplyView {
    ReplyView {
        status: 429,
        headers: seq![
            ("content-type"@, "text/plain; charset=utf-8"@),
            ("retry-after"@, "1"@),
        ],
        body: vstd::utf8::encode_utf8("429 Too Many Requests"@),
    }
}

/// Turns a client over its limit away.
pub fn check_limit(admitted: bool) -> (r: Option<Reply>)
    ensures
        reply_view(r) == (if admitted {
            None
        } else {
            Some(limit_reply())
        }),
{
    if admitted {
        return None;
    }
    let r = Reply {
        status: 429,
        headers: vec![
            field_of("content-type", "text/plain; charset=utf-8"),
            field_of("retry-after", "1"),
        ],
        body: text_bytes("429 Too Many Requests"),
    };
    assert(r@ =~= limit_reply());
    Some(r)
}

/// A request without a signature is refused, whatever it asks for.
pub proof fn unsigned_requests_are_refused(cfg: SigV4Config, q: sigv4::RequestView, now: int)
    requires
        sigv4::header(q.headers, "authorization"@) is None,
    ensures
        refusal(sigv4::verdict(cfg, q, now)) == Some(
            xml_reply(403, error_document("SignatureDoesNotMatch"@, "missing Authorization"@)),
        ),
{
}

/// A key with one slash in front where it has none.
pub open spec fn rooted(key: Seq<char>) -> Seq<char> {
    if key.len() > 0 && key[0] == '/' {
        key
    } else {
        seq!['/'] + key
    }
}

fn with_root(key: &str) -> (r: String)
    ensures
        r@ == rooted(key@),
{
    let c = text::chars(key);
    if c.len() > 0 && c[0] == '/' {
        key.to_owned()
    } else {
        let mut t = String::new();
        t.push('/');
        t.append(key);
        assert(t@ =~= rooted(key@));
        t
    }
}

/// The key of an object. Clients send it with or without the leading slash.
pub fn bkey(key: &str) -> (r: BlockKey)
    ensures
        r@ == vstd::utf8::encode_utf8(rooted(key@)),
{
    BlockKey(text_bytes(with_root(key).as_str()))
}

/// With and without its leading slash a key names the same object.
pub proof fn leading_slash_is_optional(key: Seq<char>)
    requires
        key.len() == 0 || key[0] != '/',
    ensures
        rooted(seq!['/'] + key) == rooted(key),
        rooted(rooted(key)) == rooted(key),
{
}

/// A range of bytes that a request asks for.
#[derive(Clone, Copy, Debug, PartialEq, Eq)]
pub enum RangeSpec {
    /// `bytes=a-b` or `bytes=a-`
    From(u64, Option<u64>),
    /// `bytes=-n`: the last n bytes
    Suffix(u64),
}

/// The number a text spells that fits in 64 bits.
pub open spec fn number_in(s: Seq<char>) -> Option<u64> {
    match text::parsed_uint(s, u64::MAX as nat) {
        Some(v) => Some(v as u64),
        None => None,
    }
}

/// The range that the text behind `bytes=` asks for.
pub open spec fn range_between(a: Seq<char>, b: Seq<char>) -> Option<RangeSpec> {
    if a.len() == 0 {
        match number_in(b) {
            Some(n) => if n == 0 {
                None
            } else {
                Some(RangeSpec::Suffix(n))
            },
            None => None,
        }
    } else {
        match number_in(a) {
            None => None,
            Some(start) => if b.len() == 0 {
                Some(RangeSpec::From(start, None))
            } else {
                match number_in(b) {
                    None => None,
                    Some(end) => if end < start {
                        None
                    } else {
                        Some(RangeSpec::From(start, Some(end)))
                    },
                }
            },
        }
    }
}

/// The range that a `Range` header asks for; none where it is not understood.
pub open spec fn parsed_range(v: Seq<char>) -> Option<RangeSpec> {
    if !bytes::has_prefix(v, "bytes="@) {
        None
    } else {
        match text::split_first(v.skip("bytes="@.len() as int), '-') {
            None => None,
            Some(p) => range_between(p.0, p.1),
        }
    }
}

fn number(s: &[char]) -> (r: Option<u64>)
    ensures
        r == number_in(s@),
{
    text::parse_uint(s, u64::MAX)
}

pub fn parse_range(v: &str) -> (r: Option<RangeSpec>)
    ensures
        r == parsed_range(v@),
{
    let all = text::chars(v);
    let p = text::chars("bytes=");
    if !text::has_prefix(all.as_slice(), p.as_slice()) {
        return None;
    }
    let spec_part = text::slice_of(all.as_slice(), p.len(), all.len());
    assert(spec_part@ =~= v@.skip("bytes="@.len() as int));
    let (a, b) = match text::split_once(spec_part.as_slice(), '-') {
        Some(p) => p,
        None => {
            return None;
        },
    };
    if a.len() == 0 {
        return match number(b.as_slice()) {
            Some(n) => if n == 0 {
                None
            } else {
                Some(RangeSpec::Suffix(n))
            },
            None => None,
        };
    }
    let start: u64 = match number(a.as_slice()) {
        Some(n) => n,
        None => {
            return None;
        },
    };
    if b.len() == 0 {
        return Some(RangeSpec::From(start, None));
    }
    match number(b.as_slice()) {
        Some(end) => if end < start {
            None
        } else {
            Some(RangeSpec::From(start, Some(end)))
        },
        None => None,
    }
}

/// A range that was understood runs forwards, and a suffix is not empty.
pub proof fn ranges_run_forwards(v: Seq<char>)
    ensures
        parsed_range(v) matches Some(RangeSpec::From(start, Some(end))) ==> start <= end,
        parsed_range(v) matches Some(RangeSpec::Suffix(n)) ==> n > 0,
{
}

/// Whether the value of `x-ozd-bao` asks for a slice with its proof.
pub open spec fn asks_for_bao(v: Option<Seq<char>>) -> bool {
    match v {
        Some(t) => t == "1"@ || text::lowered(t) == "true"@,
        None => false,
    }
}

pub fn want_bao(v: Option<&str>) -> (r: bool)
    ensures
        r == asks_for_bao(
            match v {
                Some(t) => Some(t@),
                None => None,
            },
        ),
{
    match v {
        Some(t) => {
            let c = text::chars(t);
            text::spells(c.as_slice(), "1") || text::spells(
                text::lower(c.as_slice()).as_slice(),
                "true",
            )
        },
        None => false,
    }
}

/// What a get returns.
#[derive(Debug)]
pub enum GetPlan {
    /// the whole body
    Full,
    /// the bytes `start..=end`
    Part { start: u64, end: u64 },
}

/// What a get of a body of `total` bytes returns.
pub open spec fn planned_get(
    range: Option<RangeSpec>,
    bao: bool,
    total: u64,
) -> Result<GetPlan, ErrorView> {
    match range {
        None => if bao {
            Ok(
                GetPlan::Part {
                    start: 0,
                    end: if total > 0 {
                        (total - 1) as u64
                    } else {
                        0
                    },
                },
            )
        } else {
            Ok(GetPlan::Full)
        },
        Some(RangeSpec::From(start, end)) => if start >= total {
            Err(ErrorView::Io("range start beyond EOF"@))
        } else {
            Ok(
                GetPlan::Part {
                    start,
                    end: match end {
                        Some(e) => if e < total {
                            e
                        } else {
                            (total - 1) as u64
                        },
                        None => (total - 1) as u64,
                    },
                },
            )
        },
        Some(RangeSpec::Suffix(n)) => if total == 0 {
            Err(ErrorView::Io("range on empty body"@))
        } else {
            Ok(
                GetPlan::Part {
                    start: if n < total {
                        (total - n) as u64
                    } else {
                        0
                    },
                    end: (total - 1) as u64,
                },
            )
        },
    }
}

pub fn plan_get(range: Option<RangeSpec>, bao: bool, total: u64) -> (r: Result<GetPlan, DomainError>)
    ensures
        match r {
            Ok(p) => planned_get(range, bao, total) == Ok::<GetPlan, ErrorView>(p),
            Err(e) => planned_get(range, bao, total) == Err::<GetPlan, ErrorView>(e@),
        },
{
    match range {
        None => if bao {
            Ok(
                GetPlan::Part {
                    start: 0,
                    end: if total > 0 {
                        total - 1
                    } else {
                        0
                    },
                },
            )
        } else {
            Ok(GetPlan::Full)
        },
        Some(RangeSpec::From(start, end)) => {
            if start >= total {
                return Err(DomainError::Io("range start beyond EOF".to_owned()));
            }
            let last: u64 = match end {
                Some(e) => if e < total {
                    e
                } else {
                    total - 1
                },
                None => total - 1,
            };
            Ok(GetPlan::Part { start, end: last })
        },
        Some(RangeSpec::Suffix(n)) => {
            if total == 0 {
                return Err(DomainError::Io("range on empty body".to_owned()));
            }
            Ok(
                GetPlan::Part {
                    start: if n < total {
                        total - n
                    } else {
                        0
                    },
                    end: total - 1,
                },
            )
        },
    }
}

/// A planned part of a body that is not empty lies within it, whatever range was asked
/// for; only a proof of an empty body names a byte that is not there.
pub proof fn parts_lie_within(v: Seq<char>, bao: bool, total: u64)
    ensures
        planned_get(parsed_range(v), bao, total) matches Ok(GetPlan::Part { start, end }) ==> start
            <= end && (end < total || (total == 0 && bao && end == 0)),
        planned_get(None, bao, total) matches Ok(GetPlan::Part { start, end }) ==> bao && start == 0
            && (end + 1 == total || (total == 0 && end == 0)),
{
}

/// What a get sends.
#[derive(Debug)]
pub enum GetOut {
    Full(Vec<u8>),
    /// bytes, content range, whether they were verified
    Range(Vec<u8>, String, bool),
    Bao { slice: Vec<u8>, root: String, content_range: String },
}

/// A [`GetOut`] taken by value.
pub ghost enum OutView {
    Full(Seq<u8>),
    Range(Seq<u8>, Seq<char>, bool),
    Bao(Seq<u8>, Seq<char>, Seq<char>),
}

impl View for GetOut {
    type V = OutView;

    open spec fn view(&self) -> OutView {
        match *self {
            GetOut::Full(d) => OutView::Full(d@),
            GetOut::Range(d, c, v) => OutView::Range(d@, c@, v),
            GetOut::Bao { slice, root, content_range } => OutView::Bao(
                slice@,
                root@,
                content_range@,
            ),
        }
    }
}

/// The value of `Content-Range`.
pub open spec fn content_range_of(start: u64, end: u64, total: nat) -> Seq<char> {
    "bytes "@ + text::dec_chars(start as nat) + "-"@ + text::dec_chars(end as nat) + "/"@
        + text::dec_chars(total)
}

fn content_range(start: u64, end: u64, total: u64) -> (r: String)
    ensures
        r@ == content_range_of(start, end, total as nat),
{
    let mut t = "bytes ".to_owned();
    text::push_dec(&mut t, start);
    t.append("-");
    text::push_dec(&mut t, end);
    t.append("/");
    text::push_dec(&mut t, total);
    t
}

/// What is sent for the bytes `start..=end` of a body, given what the store answered for
/// its outboard record.
pub open spec fn part_of(
    data: Seq<u8>,
    ob: Result<Seq<u8>, ErrorView>,
    bao: bool,
    start: u64,
    end: u64,
) -> Result<OutView, ErrorView> {
    let len = (end - start + 1) as u64;
    let cr = content_range_of(start, end, data.len());
    match ob {
        Ok(record) => if bao {
            match verified::proved_slice(data, record, start, len) {
                Ok(p) => Ok(OutView::Bao(p.0, digest::hex_of(p.1), cr)),
                Err(e) => Err(e),
            }
        } else {
            match verified::verified_read(data, record, start, len) {
                Ok(v) => Ok(OutView::Range(v, cr, true)),
                Err(e) => Err(e),
            }
        },
        Err(ErrorView::NotFound) => if bao {
            Err(ErrorView::Io("bao requested but no outboard for key"@))
        } else {
            Ok(OutView::Range(data.subrange(start as int, end + 1), cr, false))
        },
        Err(e) => Err(e),
    }
}

/// Serves the bytes `start..=end` of a body. With an outboard record they are verified up
/// to its root, and nothing is sent when that fails.
pub fn serve_part(
    data: &[u8],
    ob: DomainResult<Vec<u8>>,
    bao: bool,
    start: u64,
    end: u64,
) -> (r: DomainResult<GetOut>)
    requires
        start <= end < u64::MAX,
        end < data@.len() || bao,
        ob matches Ok(record) ==> verified::record_is_sane(record@),
    ensures
        match r {
            Ok(o) => part_of(data@, domain::bytes_result(ob), bao, start, end) == Ok::<
                OutView,
                ErrorView,
            >(o@),
            Err(e) => part_of(data@, domain::bytes_result(ob), bao, start, end) == Err::<
                OutView,
                ErrorView,
            >(e@),
        },
{
    let len: u64 = end - start + 1;
    let cr = content_range(start, end, data.len() as u64);
    match ob {
        Ok(record) => {
            if bao {
                match verified::bao_slice(data, record.as_slice(), start, len) {
                    Ok((slice, root)) => Ok(
                        GetOut::Bao { slice, root: digest::hex32(&root), content_range: cr },
                    ),
                    Err(e) => Err(e),
                }
            } else {
                match verified::verified_slice(data, record.as_slice(), start, len) {
                    Ok(v) => Ok(GetOut::Range(v, cr, true)),
                    Err(e) => Err(e),
                }
            }
        },
        Err(DomainError::NotFound) => {
            if bao {
                Err(DomainError::Io("bao requested but no outboard for key".to_owned()))
            } else {
                let s = bytes::copy_range(data, start as usize, (end + 1) as usize);
                Ok(GetOut::Range(s, cr, false))
            }
        },
        Err(e) => Err(e),
    }
}

/// A range is the same bytes with and without the body's outboard record.
pub proof fn records_do_not_change_bytes(data: Seq<u8>, record: Seq<u8>, start: u64, end: u64)
    requires
        start <= end < data.len(),
        end < u64::MAX,
        verified::verified_read(data, record, start, (end - start + 1) as u64) == Ok::<
            Seq<u8>,
            ErrorView,
        >(verified::range_of(data, start, (end - start + 1) as u64)),
    ensures
        ({
            let with = part_of(data, Ok(record), false, start, end);
            let without = part_of(data, Err(ErrorView::NotFound), false, start, end);
            let bytes = data.subrange(start as int, end + 1);
            let cr = content_range_of(start, end, data.len());
            &&& with == Ok::<OutView, ErrorView>(OutView::Range(bytes, cr, true))
            &&& without == Ok::<OutView, ErrorView>(OutView::Range(bytes, cr, false))
        }),
{
    assert(verified::range_of(data, start, (end - start + 1) as u64) =~= data.subrange(
        start as int,
        end + 1,
    ));
}

/// The answer that carries what a get sends.
pub open spec fn out_reply(o: OutView) -> ReplyView {
    match o {
        OutView::Full(d) => ReplyView {
            status: 200,
            headers: seq![("content-type"@, "application/octet-stream"@)],
            body: d,
        },
        OutView::Range(d, cr, checked) => ReplyView {
            status: 206,
            headers: seq![
                ("content-type"@, "application/octet-stream"@),
                ("content-range"@, cr),
                (
                    "x-ozd-verified"@,
                    if checked {
                        "blake3"@
                    } else {
                        "none"@
                    },
                ),
            ],
            body: d,
        },
        OutView::Bao(slice, root, cr) => ReplyView {
            status: 206,
            headers: seq![
                ("content-type"@, "application/vnd.ozd.bao-slice"@),
                ("content-range"@, cr),
                ("x-ozd-bao-root"@, root),
            ],
            body: slice,
        },
    }
}

/// The answer to a get.
pub fn get_reply(r: DomainResult<GetOut>) -> (a: Reply)
    ensures
        a@ == (match r {
            Ok(o) => out_reply(o@),
            Err(e) => error_reply(e@),
        }),
{
    match r {
        Err(e) => map_err(&e),
        Ok(GetOut::Full(d)) => {
            let a = Reply {
                status: 200,
                headers: vec![field_of("content-type", "application/octet-stream")],
                body: d,
            };
            assert(a@ =~= out_reply(OutView::Full(d@)));
            a
        },
        Ok(GetOut::Range(d, cr, checked)) => {
            let a = Reply {
                status: 206,
                headers: vec![
                    field_of("content-type", "application/octet-stream"),
                    field_of("content-range", cr.as_str()),
                    field_of(
                        "x-ozd-verified",
                        if checked {
                            "blake3"
                        } else {
                            "none"
                        },
                    ),
                ],
                body: d,
            };
            assert(a@ =~= out_reply(OutView::Range(d@, cr@, checked)));
            a
        },
        Ok(GetOut::Bao { slice, root, content_range }) => {
            let a = Reply {
                status: 206,
                headers: vec![
                    field_of("content-type", "application/vnd.ozd.bao-slice"),
                    field_of("content-range", content_range.as_str()),
                    field_of("x-ozd-bao-root", root.as_str()),
                ],
                body: slice,
            };
            assert(a@ =~= out_reply(OutView::Bao(slice@, root@, content_range@)));
            a
        },
    }
}

/// What comes after the body of a get was fetched.
#[derive(Debug)]
pub enum GetNext {
    /// the answer is known
    Done(Reply),
    /// the outboard record is needed next
    Outboard { data: Vec<u8>, start: u64, end: u64 },
}

/// Decides on a get once the store has answered for the body.
pub fn on_body(
    body: DomainResult<Vec<u8>>,
    range: Option<RangeSpec>,
    bao: bool,
) -> (r: GetNext)
    requires
        range matches Some(RangeSpec::From(start, Some(end))) ==> start <= end,
        range matches Some(RangeSpec::Suffix(n)) ==> n > 0,
    ensures
        match body {
            Err(e) => r matches GetNext::Done(a) && a@ == error_reply(e@),
            Ok(d) => match planned_get(range, bao, d@.len() as u64) {
                Err(e) => r matches GetNext::Done(a) && a@ == error_reply(e),
                Ok(GetPlan::Full) => r matches GetNext::Done(a) && a@ == out_reply(
                    OutView::Full(d@),
                ),
                Ok(GetPlan::Part { start, end }) => r matches GetNext::Outboard {
                    data,
                    start: s,
                    end: e,
                } && data@ == d@ && s == start && e == end && start <= end < u64::MAX && (end
                    < d@.len() || bao),
            },
        },
{
    match body {
        Err(e) => GetNext::Done(map_err(&e)),
        Ok(d) => match plan_get(range, bao, d.len() as u64) {
            Err(e) => GetNext::Done(map_err(&e)),
            Ok(GetPlan::Full) => GetNext::Done(get_reply(Ok(GetOut::Full(d)))),
            Ok(GetPlan::Part { start, end }) => GetNext::Outboard { data: d, start, end },
        },
    }
}

/// The answer to a put.
pub fn put_reply(r: DomainResult<()>) -> (a: Reply)
    ensures
        a@ == (match r {
            Ok(_) => ReplyView {
                status: 200,
                headers: seq![("etag"@, "\"ozd\""@)],
                body: Seq::empty(),
            },
            Err(e) => error_reply(e@),
        }),
{
    match r {
        Ok(_) => {
            let a = Reply {
                status: 200,
                headers: vec![field_of("etag", "\"ozd\"")],
                body: Vec::new(),
            };
            assert(a@ =~= (ReplyView {
                status: 200,
                headers: seq![("etag"@, "\"ozd\""@)],
                body: Seq::empty(),
            }));
            a
        },
        Err(e) => map_err(&e),
    }
}

/// The answer to a head: the length alone, and no document for a missing key.
pub fn head_reply(r: DomainResult<u64>) -> (a: Reply)
    ensures
        a@ == (match r {
            Ok(n) => ReplyView {
                status: 200,
                headers: seq![("content-length"@, text::dec_chars(n as nat))],
                body: Seq::empty(),
            },
            Err(e) => match e@ {
                ErrorView::NotFound => bare_reply(404),
                _ => error_reply(e@),
            },
        }),
{
    match r {
        Ok(n) => {
            let a = Reply {
                status: 200,
                headers: vec![field_of("content-length", text::dec(n).as_str())],
                body: Vec::new(),
            };
            assert(a@ =~= (ReplyView {
                status: 200,
                headers: seq![("content-length"@, text::dec_chars(n as nat))],
                body: Seq::empty(),
            }));
            a
        },
        Err(DomainError::NotFound) => bare(404),
        Err(e) => map_err(&e),
    }
}

/// The answer to a delete.
pub fn delete_reply(r: DomainResult<()>) -> (a: Reply)
    ensures
        a@ == (match r {
            Ok(_) => bare_reply(204),
            Err(e) => error_reply(e@),
        }),
{
    match r {
        Ok(_) => bare(204),
        Err(e) => map_err(&e),
    }
}

/// How a character is written in a document.
pub open spec fn escaped_char(c: char) -> Seq<char> {
    if c == '&' {
        "&amp;"@
    } else if c == '<' {
        "&lt;"@
    } else if c == '>' {
        "&gt;"@
    } else {
        seq![c]
    }
}

/// A text as it is written in a document.
pub open spec fn escaped(s: Seq<char>) -> Seq<char>
    decreases s.len(),
{
    if s.len() == 0 {
        Seq::empty()
    } else {
        escaped(s.drop_last()) + escaped_char(s.last())
    }
}

/// Writes a text for a document.
pub fn xml_escape(s: &str) -> (r: String)
    ensures
        r@ == escaped(s@),
{
    let c = text::chars(s);
    let mut out = String::new();
    let mut i: usize = 0;
    while i < c.len()
        invariant
            i <= c@.len(),
            out@ == escaped(c@.take(i as int)),
        decreases c@.len() - i,
    {
        assert(c@.take(i + 1).drop_last() =~= c@.take(i as int));
        let ghost before = out@;
        if c[i] == '&' {
            out.append("&amp;");
        } else if c[i] == '<' {
            out.append("&lt;");
        } else if c[i] == '>' {
            out.append("&gt;");
        } else {
            out.push(c[i]);
            assert(out@ =~= before + seq![c@[i as int]]);
        }
        i = i + 1;
    }
    assert(c@.take(c@.len() as int) =~= c@);
    out
}

/// A written text opens and closes no element.
pub proof fn escaped_text_has_no_markup(s: Seq<char>)
    ensures
        text::lacks(escaped(s), '<'),
        text::lacks(escaped(s), '>'),
    decreases s.len(),
{
    reveal_strlit("&amp;");
    reveal_strlit("&lt;");
    reveal_strlit("&gt;");
    if s.len() > 0 {
        escaped_text_has_no_markup(s.drop_last());
        let a = escaped(s.drop_last());
        let b = escaped_char(s.last());
        let e = a + b;
        assert(text::lacks(b, '<') && text::lacks(b, '>'));
        assert forall|i: int| 0 <= i < e.len() implies #[trigger] e[i] != '<' && e[i] != '>' by {
            if i < a.len() {
                assert(e[i] == a[i]);
            } else {
                assert(e[i] == b[i - a.len()]);
            }
        }
    }
}

/// What a list asks of the store.
#[derive(Debug)]
pub struct ListPlan {
    pub prefix: Vec<u8>,
    pub after: Option<BlockKey>,
    pub max_keys: usize,
}

/// How many keys a page holds: what was asked for, a thousand by default, ten thousand at
/// most.
pub open spec fn page_size(asked: Option<Seq<char>>) -> nat {
    let n = match asked {
        Some(t) => match text::parsed_uint(t, usize::MAX as nat) {
            Some(v) => v,
            None => 1000,
        },
        None => 1000,
    };
    if n < 10000 {
        n
    } else {
        10000
    }
}

/// The key a page begins behind: the continuation token, else the starting point.
pub open spec fn page_start(
    token: Option<Seq<char>>,
    start_after: Option<Seq<char>>,
) -> Option<Seq<u8>> {
    match token {
        Some(t) => Some(vstd::utf8::encode_utf8(rooted(t))),
        None => match start_after {
            Some(t) => Some(vstd::utf8::encode_utf8(rooted(t))),
            None => None,
        },
    }
}

/// An optional text taken by value.
pub open spec fn text_view(t: Option<String>) -> Option<Seq<char>> {
    match t {
        Some(s) => Some(s@),
        None => None,
    }
}

/// Reads the parameters of a list. One key more than a page holds is asked of the store,
/// to tell whether the page is the last.
pub fn plan_list(
    prefix_raw: &str,
    asked: &Option<String>,
    token: &Option<String>,
    start_after: &Option<String>,
) -> (r: ListPlan)
    ensures
        r.prefix@ == vstd::utf8::encode_utf8(rooted(prefix_raw@)),
        r.max_keys == page_size(text_view(*asked)),
        r.max_keys <= 10000,
        match r.after {
            Some(k) => page_start(text_view(*token), text_view(*start_after)) == Some(k@),
            None => page_start(text_view(*token), text_view(*start_after)) is None,
        },
{
    let n: u64 = match asked {
        Some(t) => match text::parse_uint(text::chars(t.as_str()).as_slice(), usize::MAX as u64) {
            Some(v) => v,
            None => 1000,
        },
        None => 1000,
    };
    let max_keys: usize = if n < 10000 {
        n as usize
    } else {
        10000
    };
    let after = match token {
        Some(t) => Some(bkey(t.as_str())),
        None => match start_after {
            Some(t) => Some(bkey(t.as_str())),
            None => None,
        },
    };
    ListPlan { prefix: text_bytes(with_root(prefix_raw).as_str()), after, max_keys }
}

/// A key of a listing as text, and its size.
#[derive(Debug)]
pub struct Row {
    pub key: String,
    pub size: u64,
}

/// Rows taken by value.
pub open spec fn row_views(v: Seq<Row>) -> Seq<(Seq<char>, u64)> {
    Seq::new(v.len(), |i: int| (v[i].key@, v[i].size))
}

/// A key without its leading slash.
pub open spec fn unrooted(key: Seq<char>) -> Seq<char> {
    if key.len() > 0 && key[0] == '/' {
        key.skip(1)
    } else {
        key
    }
}

/// The element of one object.
pub open spec fn row_element(row: (Seq<char>, u64)) -> Seq<char> {
    "<Contents><Key>"@ + escaped(unrooted(row.0)) + "</Key><Size>"@ + text::dec_chars(row.1 as nat)
        + "</Size><StorageClass>STANDARD</StorageClass></Contents>"@
}

/// The elements of the objects of a page.
pub open spec fn row_elements(rows: Seq<(Seq<char>, u64)>) -> Seq<char>
    decreases rows.len(),
{
    if rows.len() == 0 {
        Seq::empty()
    } else {
        row_elements(rows.drop_last()) + row_element(rows.last())
    }
}

/// The document of a page of a listing.
pub open spec fn list_document(
    bucket: Seq<char>,
    prefix_raw: Seq<char>,
    max_keys: nat,
    truncated: bool,
    rows: Seq<(Seq<char>, u64)>,
) -> Seq<char> {
    "<?xml version=\"1.0\" encoding=\"UTF-8\"?><ListBucketResult xmlns=\"http://s3.amazonaws.com/doc/2006-03-01/\"><Name>"@
        + bucket + "</Name><Prefix>"@ + escaped(prefix_raw) + "</Prefix><KeyCount>"@
        + text::dec_chars(rows.len()) + "</KeyCount><MaxKeys>"@ + text::dec_chars(max_keys)
        + "</MaxKeys><IsTruncated>"@ + (if truncated {
        "true"@
    } else {
        "false"@
    }) + "</IsTruncated>"@ + (if truncated && rows.len() > 0 {
        "<NextContinuationToken>"@ + escaped(rows.last().0) + "</NextContinuationToken>"@
    } else {
        Seq::empty()
    }) + row_elements(rows) + "</ListBucketResult>"@
}

fn push_row(out: &mut String, row: &Row)
    ensures
        final(out)@ == old(out)@ + row_element((row.key@, row.size)),
{
    let ghost before = out@;
    let c = text::chars(row.key.as_str());
    let name = if c.len() > 0 && c[0] == '/' {
        text::from_chars(text::slice_of(c.as_slice(), 1, c.len()).as_slice())
    } else {
        row.key.clone()
    };
    assert(name@ =~= unrooted(row.key@));
    let mut t = "<Contents><Key>".to_owned();
    t.append(xml_escape(name.as_str()).as_str());
    t.append("</Key><Size>");
    text::push_dec(&mut t, row.size);
    t.append("</Size><StorageClass>STANDARD</StorageClass></Contents>");
    out.append(t.as_str());
}

fn push_rows(out: &mut String, rows: &Vec<Row>)
    ensures
        final(out)@ == old(out)@ + row_elements(row_views(rows@)),
{
    let ghost before = out@;
    let ghost v = row_views(rows@);
    let mut i: usize = 0;
    assert(v.take(0) =~= Seq::<(Seq<char>, u64)>::empty());
    assert(before + Seq::<char>::empty() =~= before);
    while i < rows.len()
        invariant
            i <= rows@.len(),
            v == row_views(rows@),
            out@ == before + row_elements(v.take(i as int)),
        decreases rows@.len() - i,
    {
        assert(v.take(i + 1).drop_last() =~= v.take(i as int));
        let ghost mid = out@;
        push_row(out, &rows[i]);
        assert(out@ =~= before + (row_elements(v.take(i as int)) + row_element(v[i as int])));
        i = i + 1;
    }
    assert(v.take(v.len() as int) =~= v);
}

/// Writes the document of a page.
pub fn list_xml(
    bucket: &str,
    prefix_raw: &str,
    max_keys: usize,
    truncated: bool,
    rows: &Vec<Row>,
) -> (r: String)
    ensures
        r@ == list_document(bucket@, prefix_raw@, max_keys as nat, truncated, row_views(rows@)),
{
    let ghost v = row_views(rows@);
    let mut t =
        "<?xml version=\"1.0\" encoding=\"UTF-8\"?><ListBucketResult xmlns=\"http://s3.amazonaws.com/doc/2006-03-01/\"><Name>".to_owned();
    t.append(bucket);
    t.append("</Name><Prefix>");
    t.append(xml_escape(prefix_raw).as_str());
    t.append("</Prefix><KeyCount>");
    text::push_dec(&mut t, rows.len() as u64);
    t.append("</KeyCount><MaxKeys>");
    text::push_dec(&mut t, max_keys as u64);
    t.append("</MaxKeys><IsTruncated>");
    t.append(
        if truncated {
            "true"
        } else {
            "false"
        },
    );
    t.append("</IsTruncated>");
    let mut token = String::new();
    if truncated && rows.len() > 0 {
        let mut more = "<NextContinuationToken>".to_owned();
        more.append(xml_escape(rows[rows.len() - 1].key.as_str()).as_str());
        more.append("</NextContinuationToken>");
        token = more;
    }
    t.append(token.as_str());
    assert(token@ =~= (if truncated && v.len() > 0 {
        "<NextContinuationToken>"@ + escaped(v.last().0) + "</NextContinuationToken>"@
    } else {
        Seq::empty()
    }));
    push_rows(&mut t, rows);
    t.append("</ListBucketResult>");
    t
}

/// The keys of a page as text.
pub open spec fn rows_of(items: Seq<(BlockKey, u64)>, max_keys: nat) -> Seq<(Seq<char>, u64)> {
    Seq::new(
        if items.len() < max_keys {
            items.len()
        } else {
            max_keys
        },
        |i: int| (text::lossy_text(items[i].0@), items[i].1),
    )
}

/// The answer to a list, given what the store returned for one key more than the page
/// holds.
pub fn list_reply(
    bucket: &str,
    prefix_raw: &str,
    max_keys: usize,
    items: DomainResult<Vec<(BlockKey, u64)>>,
) -> (a: Reply)
    ensures
        a@ == (match items {
            Ok(v) => xml_reply(
                200,
                list_document(
                    bucket@,
                    prefix_raw@,
                    max_keys as nat,
                    v@.len() > max_keys,
                    rows_of(v@, max_keys as nat),
                ),
            ),
            Err(e) => error_reply(e@),
        }),
{
    match items {
        Err(e) => map_err(&e),
        Ok(v) => {
            let mut rows: Vec<Row> = Vec::new();
            let mut i: usize = 0;
            while i < v.len() && i < max_keys
                invariant
                    i <= v@.len(),
                    i <= max_keys,
                    rows@.len() == i,
                    forall|j: int|
                        0 <= j < i ==> (#[trigger] rows@[j]).key@ == text::lossy_text(v@[j].0@)
                            && rows@[j].size == v@[j].1,
                decreases v@.len() - i,
            {
                rows.push(Row { key: text::lossy(v[i].0.as_bytes()), size: v[i].1 });
                i = i + 1;
            }
            assert(row_views(rows@) =~= rows_of(v@, max_keys as nat));
            let xml = list_xml(bucket, prefix_raw, max_keys, v.len() > max_keys, &rows);
            xml_answer(200, xml.as_str())
        },
    }
}

/// A continuation token leads on behind the last key of its page.
pub proof fn tokens_lead_on(key: Seq<char>, start_after: Option<Seq<char>>)
    requires
        key.len() > 0,
        key[0] == '/',
    ensures
        page_start(Some(key), start_after) == Some(vstd::utf8::encode_utf8(key)),
        rooted(unrooted(key)) == key || key[1] == '/',
{
    assert(seq!['/'] + key.skip(1) =~= key);
}

/// A range that is asked for is served exactly: it begins where it was asked to, and ends
/// where it was asked to or with the body.  A request for the last bytes gets as many as it
/// asked for, or the whole body.  Nothing is served from behind the end.
pub proof fn ranges_are_served_exactly(
    range: Option<RangeSpec>,
    bao: bool,
    total: u64,
    r: Result<GetPlan, DomainError>,
)
    requires
        call_ensures(plan_get, (range, bao, total), r),
    ensures
        match range {
            Some(RangeSpec::From(a, end)) => if a < total {
                &&& r matches Ok(GetPlan::Part { start, end: last })
                &&& start == a
                &&& last < total
                &&& end is None ==> last + 1 == total
                &&& end is Some && end->0 < total ==> last == end->0
                &&& end is Some && end->0 >= total ==> last + 1 == total
            } else {
                r is Err
            },
            Some(RangeSpec::Suffix(n)) => if total > 0 {
                &&& r matches Ok(GetPlan::Part { start, end: last })
                &&& last + 1 == total
                &&& n <= total ==> total - start == n
                &&& n > total ==> start == 0
            } else {
                r is Err
            },
            None => if !bao {
                r matches Ok(GetPlan::Full)
            } else {
                &&& r matches Ok(GetPlan::Part { start, end: last })
                &&& start == 0
                &&& total > 0 ==> last + 1 == total
            },
        },
{
}

/// A get for a range is answered with exactly these bytes of the body and says which they
/// are; a get for no range is answered with the whole body.
pub proof fn gets_answer_with_the_bytes(
    data: Vec<u8>,
    a: u64,
    b: u64,
    next: GetNext,
    whole: GetNext,
)
    requires
        a <= b,
        b < data@.len() <= u64::MAX,
        call_ensures(on_body, (Ok(data), Some(RangeSpec::From(a, Some(b))), false), next),
        call_ensures(on_body, (Ok(data), None, false), whole),
    ensures
        next matches GetNext::Outboard { data: d, start, end } && d@ == data@ && start == a && end
            == b,
        part_of(data@, Err(ErrorView::NotFound), false, a, b) == Ok::<OutView, ErrorView>(
            OutView::Range(
                data@.subrange(a as int, b + 1),
                "bytes "@ + text::dec_chars(a as nat) + "-"@ + text::dec_chars(b as nat) + "/"@
                    + text::dec_chars(data@.len()),
                false,
            ),
        ),
        whole matches GetNext::Done(r) && r.status == 200 && r.body@ == data@,
{
}

/// What is served reaches the client whole: a body with 200; a range with 206, its place in
/// the body, and whether it was verified; a slice with 206, its place and its root.
pub proof fn replies_carry_what_is_served(r: DomainResult<GetOut>, a: Reply)
    requires
        call_ensures(get_reply, (r,), a),
    ensures
        r matches Ok(GetOut::Full(d)) ==> a.status == 200 && a.body@ == d@,
        r matches Ok(GetOut::Range(d, cr, checked)) ==> {
            &&& a.status == 206
            &&& a.body@ == d@
            &&& a@.headers.contains(("content-range"@, cr@))
            &&& checked ==> a@.headers.contains(("x-ozd-verified"@, "blake3"@))
            &&& !checked ==> a@.headers.contains(("x-ozd-verified"@, "none"@))
        },
        r matches Ok(GetOut::Bao { slice, root, content_range }) ==> {
            &&& a.status == 206
            &&& a.body@ == slice@
            &&& a@.headers.contains(("content-range"@, content_range@))
            &&& a@.headers.contains(("x-ozd-bao-root"@, root@))
        },
        r is Err ==> a.status >= 400,
{
    match r {
        Ok(GetOut::Range(d, cr, checked)) => {
            let h = out_reply(OutView::Range(d@, cr@, checked)).headers;
            assert(h[1] == ("content-range"@, cr@));
            assert(h[2].0 == "x-ozd-verified"@);
            assert(a@.headers == h);
            assert(h.contains(h[1]) && h.contains(h[2]));
        },
        Ok(GetOut::Bao { slice, root, content_range }) => {
            let h = out_reply(OutView::Bao(slice@, root@, content_range@)).headers;
            assert(a@.headers == h);
            assert(h.contains(h[1]) && h.contains(h[2]));
        },
        _ => {},
    }
}

/// A missing key is 404, a store that shuts down is 503, so that the client tries again, and
/// everything else that fails is 500.
pub proof fn failures_have_their_status(e: &DomainError, a: Reply)
    requires
        call_ensures(map_err, (e,), a),
    ensures
        a.status == 404 <==> e@ is NotFound,
        a.status == 503 <==> (e@ matches ErrorView::Io(m) && bytes::has_prefix(
            m,
            "shutting down"@,
        )),
        a.status == 404 || a.status == 503 || a.status == 500,
{
}

/// Every request tells success from failure by its status, with the status of its kind.
pub proof fn requests_have_their_status(
    put: DomainResult<()>,
    head: DomainResult<u64>,
    deleted: DomainResult<()>,
    p: Reply,
    h: Reply,
    d: Reply,
)
    requires
        call_ensures(put_reply, (put,), p),
        call_ensures(head_reply, (head,), h),
        call_ensures(delete_reply, (deleted,), d),
    ensures
        put is Ok <==> p.status == 200,
        put is Err ==> p.status >= 400,
        head matches Ok(n) ==> h.status == 200 && h@.headers == seq![
            ("content-length"@, text::dec_chars(n as nat)),
        ],
        head is Err ==> h.status >= 400,
        head matches Err(e) && e@ is NotFound ==> h.status == 404 && h.body@.len() == 0,
        deleted is Ok <==> d.status == 204,
        deleted is Err ==> d.status >= 400,
{
}

/// The digits of a number hold no hyphen.
proof fn lemma_no_hyphen(n: u64)
    ensures
        text::lacks(text::dec_chars(n as nat), '-'),
        number_in(text::dec_chars(n as nat)) == Some(n),
        text::dec_chars(n as nat).len() > 0,
{
    text::lemma_digits_lack(n as nat, '-');
    text::numbers_read_back(n as nat, u64::MAX as nat);
    text::dec_round_trip(n as nat);
}

proof fn lemma_behind_bytes(a: Seq<char>, b: Seq<char>)
    requires
        text::lacks(a, '-'),
    ensures
        parsed_range("bytes="@ + (a + seq!['-'] + b)) == range_between(a, b),
{
    let v = "bytes="@ + (a + seq!['-'] + b);
    assert(v.subrange(0, "bytes="@.len() as int) =~= "bytes="@);
    assert(v.skip("bytes="@.len() as int) =~= a + seq!['-'] + b);
    text::texts_are_cut_once(a, '-', b);
}

/// Every form of a range is understood, for all its numbers: from one byte to another, from
/// a byte on, and the last bytes.  A range that runs backwards, and the last none, are not.
pub proof fn ranges_are_understood(a: u64, b: u64)
    ensures
        parsed_range(
            "bytes="@ + (text::dec_chars(a as nat) + seq!['-'] + text::dec_chars(b as nat)),
        ) == (if a <= b {
            Some(RangeSpec::From(a, Some(b)))
        } else {
            None
        }),
        parsed_range("bytes="@ + (text::dec_chars(a as nat) + seq!['-'] + Seq::empty())) == Some(
            RangeSpec::From(a, None),
        ),
        parsed_range("bytes="@ + (Seq::empty() + seq!['-'] + text::dec_chars(b as nat))) == (if b
            > 0 {
            Some(RangeSpec::Suffix(b))
        } else {
            None
        }),
{
    let none = Seq::<char>::empty();
    let (x, y) = (text::dec_chars(a as nat), text::dec_chars(b as nat));
    lemma_no_hyphen(a);
    lemma_no_hyphen(b);
    lemma_behind_bytes(x, y);
    lemma_behind_bytes(x, none);
    lemma_behind_bytes(none, y);
}

/// What is not in bytes is no range.
pub proof fn other_units_are_no_ranges(v: Seq<char>)
    requires
        !bytes::has_prefix(v, "bytes="@),
    ensures
        parsed_range(v) is None,
{
}

/// A slice with its proof is asked for by `1` and by `true` in any case, and by nothing else.
pub proof fn slices_are_asked_for(v: Option<&str>, r: bool)
    requires
        call_ensures(want_bao, (v,), r),
    ensures
        v is None ==> !r,
        v is Some && (v->0)@ == "1"@ ==> r,
        v is Some && (v->0)@ == "true"@ ==> r,
        r ==> (v->0)@ == "1"@ || ((v->0)@.len() == 4 && forall|i: int|
            0 <= i < 4 ==> text::lower_char(#[trigger] (v->0)@[i]) == "true"@[i]),
{
    reveal_strlit("true");
    reveal_strlit("1");
    if v is Some && (v->0)@ == "true"@ {
        assert(text::lowered((v->0)@) =~= "true"@);
    }
    if r && (v->0)@ != "1"@ {
        let l = text::lowered((v->0)@);
        assert(l == "true"@);
        assert forall|i: int| 0 <= i < 4 implies text::lower_char(#[trigger] (v->0)@[i])
            == "true"@[i] by {
            assert(l[i] == text::lower_char((v->0)@[i]));
        }
    }
}

/// Text is written part by part, only the three characters of markup differently.
pub proof fn only_markup_is_escaped(a: Seq<char>, c: char, b: Seq<char>)
    ensures
        escaped(a + b) == escaped(a) + escaped(b),
        escaped(Seq::empty()) == Seq::<char>::empty(),
        c != '&' && c != '<' && c != '>' ==> escaped(seq![c]) == seq![c],
        escaped(seq!['&']) == "&amp;"@,
        escaped(seq!['<']) == "&lt;"@,
        escaped(seq!['>']) == "&gt;"@,
    decreases b.len(),
{
    reveal_with_fuel(escaped, 2);
    let none = Seq::<char>::empty();
    assert(seq![c].drop_last() =~= none);
    assert(seq!['&'].drop_last() =~= none);
    assert(seq!['<'].drop_last() =~= none);
    assert(seq!['>'].drop_last() =~= none);
    assert(none + seq![c] =~= seq![c]);
    assert(none + "&amp;"@ =~= "&amp;"@);
    assert(none + "&lt;"@ =~= "&lt;"@);
    assert(none + "&gt;"@ =~= "&gt;"@);
    if b.len() == 0 {
        assert(a + b =~= a);
        assert(escaped(a) + escaped(b) =~= escaped(a));
    } else {
        only_markup_is_escaped(a, c, b.drop_last());
        assert((a + b).drop_last() =~= a + b.drop_last());
        assert((a + b).last() == b.last());
        assert(escaped(a) + (escaped(b.drop_last()) + escaped_char(b.last())) =~= escaped(a)
            + escaped(b.drop_last()) + escaped_char(b.last()));
    }
}

/// A list asks for the prefix with its slash, begins behind the continuation token or else
/// behind the starting point, and a page has as many keys as were asked for, a thousand when
/// nothing was, and never more than ten thousand.
pub proof fn lists_are_planned(
    prefix_raw: &str,
    asked: &Option<String>,
    token: &Option<String>,
    start_after: &Option<String>,
    n: nat,
    r: ListPlan,
)
    requires
        call_ensures(plan_list, (prefix_raw, asked, token, start_after), r),
    ensures
        r.prefix@ == vstd::utf8::encode_utf8(rooted(prefix_raw@)),
        *asked is None ==> r.max_keys == 1000,
        (*asked matches Some(t) && t@ == text::dec_chars(n)) && n <= usize::MAX ==> r.max_keys == (
        if n < 10000 {
            n as int
        } else {
            10000
        }),
        r.max_keys <= 10000,
        *token matches Some(t) ==> (r.after matches Some(k) && k@ == vstd::utf8::encode_utf8(
            rooted(t@),
        )),
        *token is None ==> (*start_after matches Some(t) ==> (r.after matches Some(k) && k@
            == vstd::utf8::encode_utf8(rooted(t@)))),
        *token is None && *start_after is None ==> r.after is None,
{
    text::numbers_read_back(n, usize::MAX as nat);
}

proof fn lemma_row_occurs(rows: Seq<(Seq<char>, u64)>, i: int, a: Seq<char>, b: Seq<char>)
    requires
        0 <= i < rows.len(),
    ensures
        text::occurs(a + row_elements(rows) + b, row_element(rows[i])),
    decreases rows.len(),
{
    let p = rows.drop_last();
    let e = row_element(rows.last());
    if i < p.len() {
        lemma_row_occurs(p, i, a, e + b);
        assert(a + row_elements(rows) + b =~= a + row_elements(p) + (e + b));
    } else {
        text::lemma_occurs_between(a + row_elements(p), e, b);
        assert(a + row_elements(rows) + b =~= a + row_elements(p) + e + b);
    }
}

/// A page names every key that it should, with its size: the first keys that the store
/// returned, as many as a page holds.  It says how many they are, and that there are more
/// exactly when the store returned more, with the last key of the page to go on from.
pub proof fn pages_name_their_keys(
    bucket: Seq<char>,
    prefix_raw: Seq<char>,
    max_keys: nat,
    items: Seq<(BlockKey, u64)>,
    i: int,
)
    requires
        0 <= i < items.len(),
        i < max_keys,
    ensures
        ({
            let rows = rows_of(items, max_keys);
            let doc = list_document(bucket, prefix_raw, max_keys, items.len() > max_keys, rows);
            let key = text::lossy_text(items[i].0@);
            &&& rows.len() == (if items.len() < max_keys {
                items.len()
            } else {
                max_keys
            })
            &&& text::occurs(
                doc,
                "<Contents><Key>"@ + escaped(unrooted(key)) + "</Key><Size>"@ + text::dec_chars(
                    items[i].1 as nat,
                ) + "</Size><StorageClass>STANDARD</StorageClass></Contents>"@,
            )
            &&& text::occurs(
                doc,
                "<KeyCount>"@ + text::dec_chars(rows.len()) + "</KeyCount>"@,
            )
            &&& items.len() > max_keys ==> text::occurs(
                doc,
                "<IsTruncated>true</IsTruncated><NextContinuationToken>"@ + escaped(
                    text::lossy_text(items[max_keys - 1].0@),
                ) + "</NextContinuationToken>"@,
            )
            &&& items.len() <= max_keys ==> text::occurs(doc, "<IsTruncated>false</IsTruncated>"@)
        }),
{
    let rows = rows_of(items, max_keys);
    let more = items.len() > max_keys;
    let top =
        "<?xml version=\"1.0\" encoding=\"UTF-8\"?><ListBucketResult xmlns=\"http://s3.amazonaws.com/doc/2006-03-01/\"><Name>"@
        + bucket + "</Name><Prefix>"@ + escaped(prefix_raw);
    let count = text::dec_chars(rows.len());
    let size = text::dec_chars(max_keys);
    let flag = if more {
        "true"@
    } else {
        "false"@
    };
    let token = if more && rows.len() > 0 {
        "<NextContinuationToken>"@ + escaped(rows.last().0) + "</NextContinuationToken>"@
    } else {
        Seq::empty()
    };
    let end = "</ListBucketResult>"@;
    lemma_literals();
    let upto = top + "</Prefix><KeyCount>"@ + count + "</KeyCount><MaxKeys>"@ + size
        + "</MaxKeys><IsTruncated>"@ + flag + "</IsTruncated>"@ + token;
    lemma_row_occurs(rows, i, upto, end);
    assert(rows[i] == (text::lossy_text(items[i].0@), items[i].1));
    lemma_regroup_count(
        top,
        "</Prefix>"@,
        "<KeyCount>"@,
        count,
        "</KeyCount>"@,
        "<MaxKeys>"@,
        size + ("</MaxKeys><IsTruncated>"@ + flag + "</IsTruncated>"@ + token + row_elements(rows)
            + end),
    );
    lemma_regroup_tail(
        top + "</Prefix><KeyCount>"@ + count + "</KeyCount><MaxKeys>"@,
        size,
        "</MaxKeys><IsTruncated>"@,
        flag,
        "</IsTruncated>"@,
        token,
        row_elements(rows),
        end,
    );
    text::lemma_occurs_between(
        top + "</Prefix>"@,
        "<KeyCount>"@ + count + "</KeyCount>"@,
        "<MaxKeys>"@ + (size + ("</MaxKeys><IsTruncated>"@ + flag + "</IsTruncated>"@ + token
            + row_elements(rows) + end)),
    );
    let head = top + "</Prefix><KeyCount>"@ + count + "</KeyCount><MaxKeys>"@ + size;
    lemma_regroup_flag(
        head,
        "</MaxKeys>"@,
        "<IsTruncated>"@,
        flag,
        "</IsTruncated>"@,
        token,
        row_elements(rows),
        end,
    );
    text::lemma_occurs_between(
        head + "</MaxKeys>"@,
        "<IsTruncated>"@ + flag + "</IsTruncated>"@ + token,
        row_elements(rows) + end,
    );
    if more {
        let last = escaped(rows.last().0);
        assert(rows.last().0 == text::lossy_text(items[max_keys - 1].0@));
        lemma_regroup_token(
            "<IsTruncated>"@ + flag + "</IsTruncated>"@,
            "<NextContinuationToken>"@,
            last,
            "</NextContinuationToken>"@,
        );
    } else {
        assert("<IsTruncated>"@ + flag + "</IsTruncated>"@ + token =~= "<IsTruncated>"@ + flag
            + "</IsTruncated>"@);
    }
}

proof fn lemma_regroup_count(
    a: Seq<char>,
    b: Seq<char>,
    c: Seq<char>,
    d: Seq<char>,
    e: Seq<char>,
    f: Seq<char>,
    g: Seq<char>,
)
    ensures
        a + (b + c) + d + (e + f) + g == (a + b) + (c + d + e) + (f + g),
{
    assert(a + (b + c) + d + (e + f) + g =~= (a + b) + (c + d + e) + (f + g));
}

proof fn lemma_regroup_tail(
    a: Seq<char>,
    b: Seq<char>,
    c: Seq<char>,
    d: Seq<char>,
    e: Seq<char>,
    f: Seq<char>,
    g: Seq<char>,
    h: Seq<char>,
)
    ensures
        a + b + c + d + e + f + g + h == a + (b + (c + d + e + f + g + h)),
{
    assert(a + b + c + d + e + f + g + h =~= a + (b + (c + d + e + f + g + h)));
}

proof fn lemma_regroup_flag(
    a: Seq<char>,
    b: Seq<char>,
    c: Seq<char>,
    d: Seq<char>,
    e: Seq<char>,
    f: Seq<char>,
    g: Seq<char>,
    h: Seq<char>,
)
    ensures
        a + (b + c) + d + e + f + g + h == (a + b) + (c + d + e + f) + (g + h),
{
    assert(a + (b + c) + d + e + f + g + h =~= (a + b) + (c + d + e + f) + (g + h));
}

proof fn lemma_regroup_token(a: Seq<char>, b: Seq<char>, c: Seq<char>, d: Seq<char>)
    ensures
        a + (b + c + d) == a + b + c + d,
{
    assert(a + (b + c + d) =~= a + b + c + d);
}

/// Texts of the document that are made of others.
proof fn lemma_literals()
    ensures
        "</Prefix><KeyCount>"@ == "</Prefix>"@ + "<KeyCount>"@,
        "</KeyCount><MaxKeys>"@ == "</KeyCount>"@ + "<MaxKeys>"@,
        "</MaxKeys><IsTruncated>"@ == "</MaxKeys>"@ + "<IsTruncated>"@,
        "<IsTruncated>true</IsTruncated><NextContinuationToken>"@ == "<IsTruncated>"@ + "true"@
            + "</IsTruncated>"@ + "<NextContinuationToken>"@,
        "<IsTruncated>false</IsTruncated>"@ == "<IsTruncated>"@ + "false"@ + "</IsTruncated>"@,
{
    reveal_strlit("</Prefix><KeyCount>");
    reveal_strlit("</Prefix>");
    reveal_strlit("<KeyCount>");
    reveal_strlit("</KeyCount><MaxKeys>");
    reveal_strlit("</KeyCount>");
    reveal_strlit("<MaxKeys>");
    reveal_strlit("</MaxKeys><IsTruncated>");
    reveal_strlit("</MaxKeys>");
    reveal_strlit("<IsTruncated>");
    reveal_strlit("<IsTruncated>true</IsTruncated><NextContinuationToken>");
    reveal_strlit("true");
    reveal_strlit("false");
    reveal_strlit("</IsTruncated>");
    reveal_strlit("<NextContinuationToken>");
    reveal_strlit("<IsTruncated>false</IsTruncated>");
    assert("</Prefix><KeyCount>"@ =~= "</Prefix>"@ + "<KeyCount>"@);
    assert("</KeyCount><MaxKeys>"@ =~= "</KeyCount>"@ + "<MaxKeys>"@);
    assert("</MaxKeys><IsTruncated>"@ =~= "</MaxKeys>"@ + "<IsTruncated>"@);
    assert("<IsTruncated>true</IsTruncated><NextContinuationToken>"@ =~= "<IsTruncated>"@ + "true"@
        + "</IsTruncated>"@ + "<NextContinuationToken>"@);
    assert("<IsTruncated>false</IsTruncated>"@ =~= "<IsTruncated>"@ + "false"@ + "</IsTruncated>"@);
}

/// A request goes on to the store exactly when its signature was accepted, and is answered
/// with 403 and the reason otherwise; a client over its limit is told to come back.
pub proof fn refusals_are_told(verdict: Result<(), Seq<char>>, admitted: bool, r: Option<Reply>)
    requires
        call_ensures(check_limit, (admitted,), r),
    ensures
        verdict is Ok <==> refusal(verdict) is None,
        verdict matches Err(e) ==> (refusal(verdict)->0).status == 403 && (refusal(
            verdict,
        )->0).body == vstd::utf8::encode_utf8(error_document("SignatureDoesNotMatch"@, e)),
        admitted <==> r is None,
        !admitted ==> (r->0).status == 429 && (r->0)@.headers.contains(("retry-after"@, "1"@)),
{
    if !admitted {
        assert((r->0)@.headers == limit_reply().headers);
        assert(limit_reply().headers[1] == ("retry-after"@, "1"@));
        assert(limit_reply().headers.contains(limit_reply().headers[1]));
    }
}

/// A key is listed without the slash that it is stored under, and as it is without one.
pub proof fn keys_are_listed_without_their_slash(k: Seq<char>)
    ensures
        unrooted(seq!['/'] + k) == k,
        k.len() == 0 || k[0] != '/' ==> unrooted(k) == k,
{
    assert((seq!['/'] + k)[0] == '/');
    assert((seq!['/'] + k).skip(1) =~= k);
}

} // verus!
