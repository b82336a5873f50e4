//! Request signatures in the AWS Signature V4 scheme, carried in the
//! `Authorization` header.
//!
//! The canonical path is the request's path as sent, and the query's pairs are
//! sorted as sent. The header `x-amz-content-sha256` is held against the digest of
//! the body that arrived, so that a replaced body is caught before its signature.
use vstd::prelude::*;
use vstd::string::*;
use crate::bytes;
use crate::digest;
use crate::text;

verus! {

/// Credentials that requests are checked against.
#[derive(Debug)]
pub struct SigV4Config {
    pub access_key: String,
    pub secret_key: String,
    /// clock skew allowed, in seconds; the time is not checked at zero or below
    pub max_skew_secs: i64,
}

impl SigV4Config {
    pub fn new(access_key: String, secret_key: String) -> (r: Self)
        ensures
            r.access_key@ == access_key@,
            r.secret_key@ == secret_key@,
            r.max_skew_secs == 900,
    {
        SigV4Config { access_key, secret_key, max_skew_secs: 900 }
    }
}

/// The headers of a request whose value is text: lower-case names, one value each.
#[derive(Debug)]
pub struct Headers(pub Vec<(String, String)>);

impl View for Headers {
    type V = Seq<(Seq<char>, Seq<char>)>;

    open spec fn view(&self) -> Seq<(Seq<char>, Seq<char>)> {
        Seq::new(self.0@.len(), |i: int| (self.0@[i].0@, self.0@[i].1@))
    }
}

/// The value of the first header of that name.
pub open spec fn header(h: Seq<(Seq<char>, Seq<char>)>, name: Seq<char>) -> Option<Seq<char>>
    decreases h.len(),
{
    if h.len() == 0 {
        None
    } else if h[0].0 == name {
        Some(h[0].1)
    } else {
        header(h.skip(1), name)
    }
}

impl Headers {
    /// The value of the header of that name.
    pub fn get(&self, name: &str) -> (r: Option<&String>)
        ensures
            match r {
                Some(v) => header(self@, name@) == Some(v@),
                None => header(self@, name@) is None,
            },
    {
        let mut i: usize = 0;
        assert(self@.skip(0) =~= self@);
        while i < self.0.len()
            invariant
                i <= self.0@.len(),
                header(self@, name@) == header(self@.skip(i as int), name@),
            decreases self.0@.len() - i,
        {
            assert(self@.skip(i as int).skip(1) =~= self@.skip(i + 1));
            if text::same_text(self.0[i].0.as_str(), name) {
                return Some(&self.0[i].1);
            }
            i = i + 1;
        }
        None
    }
}

/// What an `Authorization` header says.
#[derive(Debug)]
pub struct AuthHeader {
    pub access_key: String,
    /// the day of the credential's scope, `YYYYMMDD`
    pub date: String,
    pub region: String,
    pub service: String,
    /// lower-case names
    pub signed_headers: Vec<String>,
    pub signature_hex: String,
}

/// An [`AuthHeader`] with its texts taken by value.
pub ghost struct AuthView {
    pub access_key: Seq<char>,
    pub date: Seq<char>,
    pub region: Seq<char>,
    pub service: Seq<char>,
    pub signed_headers: Seq<Seq<char>>,
    pub signature_hex: Seq<char>,
}

impl View for AuthHeader {
    type V = AuthView;

    open spec fn view(&self) -> AuthView {
        AuthView {
            access_key: self.access_key@,
            date: self.date@,
            region: self.region@,
            service: self.service@,
            signed_headers: text::texts(self.signed_headers@),
            signature_hex: self.signature_hex@,
        }
    }
}

/// The value of the last part that opens with `label`, white space around parts aside.
pub open spec fn field(parts: Seq<Seq<char>>, label: Seq<char>) -> Option<Seq<char>>
    decreases parts.len(),
{
    if parts.len() == 0 {
        None
    } else {
        match text::stripped(text::trimmed(parts.last()), label) {
            Some(v) => Some(v),
            None => field(parts.drop_last(), label),
        }
    }
}

/// The names of a list separated by semicolons, in lower case.
pub open spec fn name_list(s: Seq<char>) -> Seq<Seq<char>> {
    let p = text::split_on(s, ';');
    Seq::new(p.len(), |i: int| text::lowered(p[i]))
}

/// What an `Authorization` header says, or why it cannot be used.
pub open spec fn parsed_auth(v: Seq<char>) -> Result<AuthView, Seq<char>> {
    match text::stripped(v, "AWS4-HMAC-SHA256"@) {
        None => Err("unsupported auth scheme"@),
        Some(rest) => {
            let parts = text::split_on(text::trimmed(rest), ',');
            match field(parts, "Credential="@) {
                None => Err("missing Credential"@),
                Some(c) => {
                    let cp = text::split_on(c, '/');
                    if cp.len() != 5 || cp[4] != "aws4_request"@ {
                        Err("bad credential scope"@)
                    } else {
                        match field(parts, "SignedHeaders="@) {
                            None => Err("missing SignedHeaders"@),
                            Some(n) => match field(parts, "Signature="@) {
                                None => Err("missing Signature"@),
                                Some(sig) => Ok(
                                    AuthView {
                                        access_key: cp[0],
                                        date: cp[1],
                                        region: cp[2],
                                        service: cp[3],
                                        signed_headers: name_list(n),
                                        signature_hex: sig,
                                    },
                                ),
                            },
                        }
                    }
                },
            }
        },
    }
}

/// The value of the last part that opens with `label`.
fn find_field(parts: &Vec<Vec<char>>, label: &str) -> (r: Option<Vec<char>>)
    ensures
        match r {
            Some(v) => field(text::views(parts@), label@) == Some(v@),
            None => field(text::views(parts@), label@) is None,
        },
{
    let mut n: usize = parts.len();
    let ghost p = text::views(parts@);
    assert(p.take(n as int) =~= p);
    while n > 0
        invariant
            n <= parts@.len(),
            p == text::views(parts@),
            field(p, label@) == field(p.take(n as int), label@),
        decreases n,
    {
        assert(p.take(n as int).drop_last() =~= p.take(n - 1));
        let t = text::trim(parts[n - 1].as_slice());
        let f = text::strip(t.as_slice(), label);
        if f.is_some() {
            return f;
        }
        n = n - 1;
    }
    None
}

/// The names of a list separated by semicolons, in lower case.
fn names_of(s: &[char]) -> (r: Vec<String>)
    ensures
        text::texts(r@) == name_list(s@),
{
    let p = text::split(s, ';');
    let mut out: Vec<String> = Vec::new();
    let mut i: usize = 0;
    while i < p.len()
        invariant
            i <= p@.len(),
            out@.len() == i,
            text::views(p@) == text::split_on(s@, ';'),
            forall|j: int|
                0 <= j < i ==> (#[trigger] out@[j])@ == text::lowered(text::split_on(s@, ';')[j]),
        decreases p@.len() - i,
    {
        assert(text::views(p@)[i as int] == p@[i as int]@);
        out.push(text::from_chars(text::lower(p[i].as_slice()).as_slice()));
        i = i + 1;
    }
    assert(text::texts(out@) =~= name_list(s@));
    out
}

/// Reads an `Authorization` header.
pub fn parse_auth_header(v: &str) -> (r: Result<AuthHeader, String>)
    ensures
        match r {
            Ok(a) => parsed_auth(v@) == Ok::<AuthView, Seq<char>>(a@),
            Err(e) => parsed_auth(v@) == Err::<AuthView, Seq<char>>(e@),
        },
{
    let all = text::chars(v);
    let rest = match text::strip(all.as_slice(), "AWS4-HMAC-SHA256") {
        Some(r) => r,
        None => {
            return Err("unsupported auth scheme".to_owned());
        },
    };
    let parts = text::split(text::trim(rest.as_slice()).as_slice(), ',');
    let credential = match find_field(&parts, "Credential=") {
        Some(c) => c,
        None => {
            return Err("missing Credential".to_owned());
        },
    };
    let cp = text::split(credential.as_slice(), '/');
    let ghost scope = text::split_on(credential@, '/');
    assert(scope.len() == cp@.len());
    if cp.len() != 5 {
        return Err("bad credential scope".to_owned());
    }
    assert(forall|i: int| 0 <= i < 5 ==> scope[i] == (#[trigger] cp@[i])@);
    if !text::spells(cp[4].as_slice(), "aws4_request") {
        return Err("bad credential scope".to_owned());
    }
    let names = match find_field(&parts, "SignedHeaders=") {
        Some(n) => n,
        None => {
            return Err("missing SignedHeaders".to_owned());
        },
    };
    let sig = match find_field(&parts, "Signature=") {
        Some(n) => n,
        None => {
            return Err("missing Signature".to_owned());
        },
    };
    Ok(
        AuthHeader {
            access_key: text::from_chars(cp[0].as_slice()),
            date: text::from_chars(cp[1].as_slice()),
            region: text::from_chars(cp[2].as_slice()),
            service: text::from_chars(cp[3].as_slice()),
            signed_headers: names_of(names.as_slice()),
            signature_hex: text::from_chars(sig.as_slice()),
        },
    )
}

/// Days from 1970-01-01 to a date of the Gregorian calendar.
pub open spec fn days_from_civil(y: int, m: int, d: int) -> int {
    let y_adj = if m <= 2 {
        y - 1
    } else {
        y
    };
    let era = y_adj / 400;
    let yoe = y_adj - era * 400;
    let mp = (m + 9) % 12;
    let doy = (153 * mp + 2) / 5 + d - 1;
    let doe = yoe * 365 + yoe / 4 - yoe / 100 + doy;
    era * 146097 + doe - 719468
}

pub open spec fn is_leap(y: int) -> bool {
    y % 4 == 0 && (y % 100 != 0 || y % 400 == 0)
}

pub open spec fn days_in_month(y: int, m: int) -> int {
    if m == 2 {
        if is_leap(y) {
            29
        } else {
            28
        }
    } else if m == 4 || m == 6 || m == 9 || m == 11 {
        30
    } else {
        31
    }
}

/// The day after a date.
pub open spec fn next_day(y: int, m: int, d: int) -> (int, int, int) {
    if d < days_in_month(y, m) {
        (y, m, d + 1)
    } else if m < 12 {
        (y, m + 1, 1)
    } else {
        (y + 1, 1, 1)
    }
}

/// Days from 1970-01-01 to the first of March of a year.
spec fn march(y: int) -> int {
    let era = y / 400;
    let yoe = y - era * 400;
    era * 146097 + yoe * 365 + yoe / 4 - yoe / 100 - 719468
}

/// A year that starts in March ends with the next February.
#[verifier::spinoff_prover]
proof fn lemma_march(y: int)
    ensures
        march(y + 1) == march(y) + 337 + days_in_month(y + 1, 2),
{
    let z = y + 1;
    let era = y / 400;
    let yoe = y - era * 400;
    let era2 = z / 400;
    let yoe2 = z - era2 * 400;
    assert(0 <= yoe < 400);
    if yoe == 399 {
        assert(era2 == era + 1 && yoe2 == 0);
        assert(z % 4 == 0 && z % 400 == 0);
    } else {
        assert(era2 == era && yoe2 == yoe + 1);
        assert(z % 4 == yoe2 % 4 && z % 100 == yoe2 % 100 && z % 400 == yoe2);
        assert(yoe2 / 4 == yoe / 4 + if yoe2 % 4 == 0 {
            1int
        } else {
            0int
        });
        assert(yoe2 / 100 == yoe / 100 + if yoe2 % 100 == 0 {
            1int
        } else {
            0int
        });
    }
}

/// The days of a year before a month, counted from March.
spec fn month_start(m: int) -> int {
    let mp = if m <= 2 {
        m + 9
    } else {
        m - 3
    };
    (153 * mp + 2) / 5
}

/// Months follow each other; February ends the year.
#[verifier::spinoff_prover]
proof fn lemma_month_starts()
    ensures
        forall|m: int|
            1 <= m < 12 && m != 2 ==> #[trigger] month_start(m + 1) == month_start(m)
                + days_in_month(1, m),
        month_start(2) == 337,
        month_start(3) == 0,
        month_start(1) == month_start(12) + 31,
{
    assert forall|m: int| 1 <= m < 12 && m != 2 implies #[trigger] month_start(m + 1)
        == month_start(m) + days_in_month(1, m) by {
        assert(m == 1 || m == 3 || m == 4 || m == 5 || m == 6 || m == 7 || m == 8 || m == 9 || m
            == 10 || m == 11);
    }
}

proof fn lemma_days(y: int, m: int, d: int)
    requires
        1 <= m <= 12,
    ensures
        days_from_civil(y, m, d) == march(
            if m <= 2 {
                y - 1
            } else {
                y
            },
        ) + month_start(m) + d - 1,
{
}

/// Days are counted from 1970-01-01, one for each day of the calendar.
#[verifier::spinoff_prover]
pub proof fn days_follow_the_calendar(y: int, m: int, d: int)
    requires
        1 <= m <= 12,
        1 <= d <= days_in_month(y, m),
    ensures
        ({
            let n = next_day(y, m, d);
            days_from_civil(n.0, n.1, n.2) == days_from_civil(y, m, d) + 1
        }),
        days_from_civil(1970, 1, 1) == 0,
{
    lemma_days(y, m, d);
    let n = next_day(y, m, d);
    lemma_days(n.0, n.1, n.2);
    lemma_month_starts();
    if d == days_in_month(y, m) {
        if m == 2 {
            lemma_march(y - 1);
        } else if m < 12 {
            assert(month_start(m + 1) == month_start(m) + days_in_month(1, m));
        }
    }
}

/// The number that the characters `from..to` spell.
pub open spec fn date_field(s: Seq<char>, from: int, to: int) -> Option<int> {
    text::parsed_int(s.subrange(from, to), 9999)
}

/// The seconds since 1970 that `YYYYMMDDTHHMMSSZ` stands for.
pub open spec fn amz_time(s: Seq<char>) -> Option<int> {
    if s.len() != 16 || s[15] != 'Z' || s[8] != 'T' {
        None
    } else {
        match (
            date_field(s, 0, 4),
            date_field(s, 4, 6),
            date_field(s, 6, 8),
            date_field(s, 9, 11),
            date_field(s, 11, 13),
            date_field(s, 13, 15),
        ) {
            (Some(y), Some(m), Some(d), Some(h), Some(mi), Some(sec)) => Some(
                days_from_civil(y, m, d) * 86400 + h * 3600 + mi * 60 + sec,
            ),
            _ => None,
        }
    }
}

fn read_field(c: &Vec<char>, from: usize, to: usize) -> (r: Option<i64>)
    requires
        from <= to <= c@.len(),
    ensures
        match r {
            Some(v) => date_field(c@, from as int, to as int) == Some(v as int) && -9999 <= v <= 9999,
            None => date_field(c@, from as int, to as int) is None,
        },
{
    text::parse_int(text::slice_of(c.as_slice(), from, to).as_slice(), 9999)
}

/// A short signed field is at least minus nine, where two characters leave room for
/// one digit behind the sign.
proof fn lemma_two_characters(s: Seq<char>)
    requires
        s.len() == 2,
        text::parsed_int(s, 9999) is Some,
    ensures
        -9 <= text::parsed_int(s, 9999)->0 <= 99,
{
    reveal_with_fuel(text::dec_value, 3);
    let t = if s[0] == '-' || s[0] == '+' {
        s.skip(1)
    } else {
        s
    };
    if s[0] == '-' && s[1] != '+' {
        let u = s.skip(1);
        assert(text::parsed_uint(u, 9999) is Some);
        assert(u.len() == 1 && text::all_digits(u));
        assert(text::is_digit_char(u[0]));
        assert(u.drop_last() =~= Seq::<char>::empty());
    } else {
        assert(text::parsed_uint(s, 9999) is Some);
        assert(text::all_digits(t));
        assert(text::is_digit_char(t[0]));
        assert(text::is_digit_char(t[t.len() - 1]));
        if t.len() == 1 {
            assert(t.drop_last() =~= Seq::<char>::empty());
        } else {
            assert(t.drop_last().drop_last() =~= Seq::<char>::empty());
            assert(t.drop_last()[0] == t[0]);
        }
    }
}

/// [`days_from_civil`] for fields of a date.
#[verifier::spinoff_prover]
fn civil_days(y: i64, m: i64, d: i64) -> (r: i64)
    requires
        -9999 <= y <= 9999,
        -9 <= m <= 99,
        -9999 <= d <= 9999,
    ensures
        r == days_from_civil(y as int, m as int, d as int),
        -10_000_000 <= r <= 10_000_000,
{
    let y_adj: i64 = if m <= 2 {
        y - 1
    } else {
        y
    };
    let era: i64 = if y_adj >= 0 {
        y_adj / 400
    } else {
        0 - (399 - y_adj) / 400
    };
    assert(era == y_adj as int / 400);
    let yoe: i64 = y_adj - era * 400;
    let mp: i64 = (m + 9) % 12;
    let doy: i64 = (153 * mp + 2) / 5 + d - 1;
    let doe: i64 = yoe * 365 + yoe / 4 - yoe / 100 + doy;
    era * 146097 + doe - 719468
}

/// Reads a date of the form `YYYYMMDDTHHMMSSZ` as seconds since 1970.
pub fn parse_amz_date(s: &str) -> (r: Option<i64>)
    ensures
        match r {
            Some(t) => amz_time(s@) == Some(t as int),
            None => amz_time(s@) is None,
        },
{
    let c = text::chars(s);
    if c.len() != 16 || c[15] != 'Z' || c[8] != 'T' {
        return None;
    }
    match (
        read_field(&c, 0, 4),
        read_field(&c, 4, 6),
        read_field(&c, 6, 8),
        read_field(&c, 9, 11),
        read_field(&c, 11, 13),
        read_field(&c, 13, 15),
    ) {
        (Some(y), Some(m), Some(d), Some(h), Some(mi), Some(sec)) => {
            proof {
                lemma_two_characters(c@.subrange(4, 6));
            }
            let days: i64 = civil_days(y, m, d);
            Some(days * 86400 + h * 3600 + mi * 60 + sec)
        },
        _ => None,
    }
}

/// A header value with each run of white space made one blank, and none at the ends.
pub open spec fn collapsed(v: Seq<char>) -> Seq<char> {
    text::joined(text::words_of(v), " "@)
}

pub fn collapse(v: &str) -> (r: String)
    ensures
        r@ == collapsed(v@),
{
    let w = text::words(text::chars(v).as_slice());
    let mut parts: Vec<String> = Vec::new();
    let mut i: usize = 0;
    while i < w.len()
        invariant
            i <= w@.len(),
            parts@.len() == i,
            forall|j: int| 0 <= j < i ==> (#[trigger] parts@[j])@ == w@[j]@,
        decreases w@.len() - i,
    {
        parts.push(text::from_chars(w[i].as_slice()));
        i = i + 1;
    }
    assert(text::texts(parts@) =~= text::views(w@));
    text::join(&parts, " ")
}

/// One line for each signed header, or the first that the request lacks.
pub open spec fn canonical_headers_of(
    names: Seq<Seq<char>>,
    h: Seq<(Seq<char>, Seq<char>)>,
) -> Result<Seq<char>, Seq<char>>
    decreases names.len(),
{
    if names.len() == 0 {
        Ok(Seq::empty())
    } else {
        match canonical_headers_of(names.drop_last(), h) {
            Err(e) => Err(e),
            Ok(t) => match header(h, names.last()) {
                None => Err("signed header '"@ + names.last() + "' missing"@),
                Some(v) => Ok(t + (names.last() + ":"@ + collapsed(v) + "\n"@)),
            },
        }
    }
}

proof fn lemma_missing_header(
    names: Seq<Seq<char>>,
    h: Seq<(Seq<char>, Seq<char>)>,
    n: int,
)
    requires
        0 <= n <= names.len(),
        canonical_headers_of(names.take(n), h) is Err,
    ensures
        canonical_headers_of(names, h) == canonical_headers_of(names.take(n), h),
    decreases names.len() - n,
{
    if n == names.len() {
        assert(names.take(n) =~= names);
    } else {
        assert(names.take(n + 1).drop_last() =~= names.take(n));
        lemma_missing_header(names, h, n + 1);
    }
}

/// The canonical form of the signed headers.
pub fn canonical_headers(names: &Vec<String>, headers: &Headers) -> (r: Result<String, String>)
    ensures
        match r {
            Ok(t) => canonical_headers_of(text::texts(names@), headers@) == Ok::<
                Seq<char>,
                Seq<char>,
            >(t@),
            Err(e) => canonical_headers_of(text::texts(names@), headers@) == Err::<
                Seq<char>,
                Seq<char>,
            >(e@),
        },
{
    let mut out = String::new();
    let mut i: usize = 0;
    let ghost t = text::texts(names@);
    assert(t.take(0) =~= Seq::<Seq<char>>::empty());
    while i < names.len()
        invariant
            i <= names@.len(),
            t == text::texts(names@),
            canonical_headers_of(t.take(i as int), headers@) == Ok::<Seq<char>, Seq<char>>(out@),
        decreases names@.len() - i,
    {
        assert(t.take(i + 1).drop_last() =~= t.take(i as int));
        assert(t.take(i + 1).last() == names@[i as int]@);
        match headers.get(names[i].as_str()) {
            None => {
                let mut e = "signed header '".to_owned();
                e.append(names[i].as_str());
                e.append("' missing");
                proof {
                    lemma_missing_header(t, headers@, i + 1);
                }
                return Err(e);
            },
            Some(v) => {
                let ghost before = out@;
                let line = collapse(v.as_str());
                out.append(names[i].as_str());
                out.append(":");
                out.append(line.as_str());
                out.append("\n");
                assert(out@ =~= before + (names@[i as int]@ + ":"@ + line@ + "\n"@));
            },
        }
        i = i + 1;
    }
    assert(t.take(t.len() as int) =~= t);
    Ok(out)
}

/// A name and value of a query.
pub type Pair = (Seq<char>, Seq<char>);

/// Whether a pair sorts before another: by name, then by value, as UTF-8 bytes.
pub open spec fn pair_lt(a: Pair, b: Pair) -> bool {
    let (x, y) = (vstd::utf8::encode_utf8(a.0), vstd::utf8::encode_utf8(b.0));
    bytes::lex_lt(x, y) || (x == y && bytes::lex_lt(
        vstd::utf8::encode_utf8(a.1),
        vstd::utf8::encode_utf8(b.1),
    ))
}

/// The pair that one piece of a query stands for.
pub open spec fn pair_of(piece: Seq<char>) -> Pair {
    match text::split_first(piece, '=') {
        Some(p) => p,
        None => (piece, Seq::empty()),
    }
}

/// The pairs of the pieces that are not empty, in order.
pub open spec fn pairs_of(pieces: Seq<Seq<char>>) -> Seq<Pair>
    decreases pieces.len(),
{
    if pieces.len() == 0 {
        Seq::empty()
    } else if pieces.last().len() == 0 {
        pairs_of(pieces.drop_last())
    } else {
        pairs_of(pieces.drop_last()).push(pair_of(pieces.last()))
    }
}

/// How many pairs at the front of a list stand before `p`.
pub open spec fn place_of(list: Seq<Pair>, p: Pair) -> nat
    decreases list.len(),
{
    if list.len() == 0 {
        0
    } else if pair_lt(p, list.last()) {
        place_of(list.drop_last(), p)
    } else {
        list.len()
    }
}

/// Pairs in ascending order.
pub open spec fn sorted_pairs(list: Seq<Pair>) -> Seq<Pair>
    decreases list.len(),
{
    if list.len() == 0 {
        Seq::empty()
    } else {
        let rest = sorted_pairs(list.drop_last());
        rest.insert(place_of(rest, list.last()) as int, list.last())
    }
}

/// `name=value` with `&` between.
pub open spec fn written_pairs(list: Seq<Pair>) -> Seq<char> {
    text::joined(Seq::new(list.len(), |i: int| list[i].0 + "="@ + list[i].1), "&"@)
}

/// The canonical form of a query.
pub open spec fn canonical_query_of(q: Seq<char>) -> Seq<char> {
    written_pairs(sorted_pairs(pairs_of(text::split_on(q, '&'))))
}

proof fn lemma_place_bound(list: Seq<Pair>, p: Pair)
    ensures
        place_of(list, p) <= list.len(),
    decreases list.len(),
{
    if list.len() > 0 {
        lemma_place_bound(list.drop_last(), p);
    }
}

proof fn lemma_pair_transitive(a: Pair, b: Pair, c: Pair)
    requires
        !pair_lt(b, a),
        !pair_lt(c, b),
    ensures
        !pair_lt(c, a),
{
    let (a0, b0, c0) = (
        vstd::utf8::encode_utf8(a.0),
        vstd::utf8::encode_utf8(b.0),
        vstd::utf8::encode_utf8(c.0),
    );
    let (a1, b1, c1) = (
        vstd::utf8::encode_utf8(a.1),
        vstd::utf8::encode_utf8(b.1),
        vstd::utf8::encode_utf8(c.1),
    );
    bytes::lemma_lex_total(a0, b0);
    bytes::lemma_lex_total(b0, c0);
    bytes::lemma_lex_total(a0, c0);
    bytes::lemma_lex_total(a1, b1);
    bytes::lemma_lex_total(b1, c1);
    bytes::lemma_lex_total(a1, c1);
    if bytes::lex_lt(a0, b0) && bytes::lex_lt(b0, c0) {
        bytes::lemma_lex_transitive(a0, b0, c0);
    }
    if bytes::lex_lt(a1, b1) && bytes::lex_lt(b1, c1) {
        bytes::lemma_lex_transitive(a1, b1, c1);
    }
}

/// Whether no pair stands behind one that it sorts before.
pub open spec fn pairs_ascend(list: Seq<Pair>) -> bool {
    forall|i: int, j: int| 0 <= i < j < list.len() ==> !pair_lt(#[trigger] list[j], #[trigger] list[i])
}

proof fn lemma_place(list: Seq<Pair>, p: Pair)
    requires
        pairs_ascend(list),
    ensures
        place_of(list, p) <= list.len(),
        forall|i: int| 0 <= i < place_of(list, p) ==> !pair_lt(p, #[trigger] list[i]),
        forall|i: int| place_of(list, p) <= i < list.len() ==> pair_lt(p, #[trigger] list[i]),
    decreases list.len(),
{
    lemma_place_bound(list, p);
    if list.len() > 0 {
        let rest = list.drop_last();
        assert forall|i: int, j: int| 0 <= i < j < rest.len() implies !pair_lt(
            #[trigger] rest[j],
            #[trigger] rest[i],
        ) by {
            assert(list[i] == rest[i] && list[j] == rest[j]);
        }
        lemma_place(rest, p);
        if pair_lt(p, list.last()) {
            assert forall|i: int| place_of(list, p) <= i < list.len() implies pair_lt(
                p,
                #[trigger] list[i],
            ) by {
                if i < rest.len() {
                    assert(rest[i] == list[i]);
                }
            }
            assert forall|i: int| 0 <= i < place_of(list, p) implies !pair_lt(
                p,
                #[trigger] list[i],
            ) by {
                assert(rest[i] == list[i]);
            }
        } else {
            assert forall|i: int| 0 <= i < list.len() implies !pair_lt(p, #[trigger] list[i]) by {
                if i < list.len() - 1 {
                    assert(!pair_lt(list[list.len() - 1], list[i]));
                    lemma_pair_transitive(list[i], list.last(), p);
                }
            }
        }
    }
}

/// Sorting keeps the pairs and puts them in order.
pub proof fn queries_are_sorted(list: Seq<Pair>)
    ensures
        pairs_ascend(sorted_pairs(list)),
        sorted_pairs(list).to_multiset() == list.to_multiset(),
    decreases list.len(),
{
    broadcast use vstd::seq_lib::group_to_multiset_ensures;

    if list.len() > 0 {
        let rest = sorted_pairs(list.drop_last());
        let p = list.last();
        queries_are_sorted(list.drop_last());
        lemma_place(rest, p);
        let k = place_of(rest, p) as int;
        let out = rest.insert(k, p);
        assert forall|i: int, j: int| 0 <= i < j < out.len() implies !pair_lt(
            #[trigger] out[j],
            #[trigger] out[i],
        ) by {
            let x = if i < k {
                i
            } else {
                i - 1
            };
            let y = if j < k {
                j
            } else {
                j - 1
            };
            if i == k {
                assert(out[j] == rest[y]);
                bytes::lemma_lex_total(
                    vstd::utf8::encode_utf8(p.0),
                    vstd::utf8::encode_utf8(rest[y].0),
                );
                bytes::lemma_lex_total(
                    vstd::utf8::encode_utf8(p.1),
                    vstd::utf8::encode_utf8(rest[y].1),
                );
                assert(pair_lt(p, rest[y]));
            } else if j == k {
                assert(out[i] == rest[x]);
            } else {
                assert(out[i] == rest[x] && out[j] == rest[y]);
            }
        }
        assert(list =~= list.drop_last().push(p));
        assert(out.to_multiset() =~= rest.to_multiset().insert(p));
    }
}

/// Pairs of which neither sorts before the other are the same.
proof fn lemma_pair_antisymmetric(a: Pair, b: Pair)
    requires
        !pair_lt(a, b),
        !pair_lt(b, a),
    ensures
        a == b,
{
    let (x0, y0) = (vstd::utf8::encode_utf8(a.0), vstd::utf8::encode_utf8(b.0));
    let (x1, y1) = (vstd::utf8::encode_utf8(a.1), vstd::utf8::encode_utf8(b.1));
    bytes::lemma_lex_total(x0, y0);
    bytes::lemma_lex_total(x1, y1);
    vstd::utf8::encode_utf8_decode_utf8(a.0);
    vstd::utf8::encode_utf8_decode_utf8(b.0);
    vstd::utf8::encode_utf8_decode_utf8(a.1);
    vstd::utf8::encode_utf8_decode_utf8(b.1);
}

/// The order of pairs is total.
proof fn lemma_pair_order(leq: spec_fn(Pair, Pair) -> bool)
    requires
        forall|a: Pair, b: Pair| #[trigger] leq(a, b) == !pair_lt(b, a),
    ensures
        vstd::relations::total_ordering(leq),
{
    assert forall|a: Pair| #[trigger] leq(a, a) by {
        bytes::lemma_lex_total(vstd::utf8::encode_utf8(a.0), vstd::utf8::encode_utf8(a.0));
        bytes::lemma_lex_total(vstd::utf8::encode_utf8(a.1), vstd::utf8::encode_utf8(a.1));
    }
    assert forall|a: Pair, b: Pair| #[trigger] leq(a, b) && #[trigger] leq(b, a) implies a == b by {
        lemma_pair_antisymmetric(a, b);
    }
    assert forall|a: Pair, b: Pair, c: Pair| #[trigger] leq(a, b) && #[trigger] leq(
        b,
        c,
    ) implies leq(a, c) by {
        lemma_pair_transitive(a, b, c);
    }
    assert forall|a: Pair, b: Pair| #[trigger] leq(a, b) || #[trigger] leq(b, a) by {
        bytes::lemma_lex_total(vstd::utf8::encode_utf8(a.0), vstd::utf8::encode_utf8(b.0));
        bytes::lemma_lex_total(vstd::utf8::encode_utf8(a.1), vstd::utf8::encode_utf8(b.1));
    }
}

/// One piece of a query less: its pair is missing, if it has one.
proof fn lemma_piece_removed(pieces: Seq<Seq<char>>, i: int)
    requires
        0 <= i < pieces.len(),
    ensures
        pairs_of(pieces).to_multiset() == if pieces[i].len() == 0 {
            pairs_of(pieces.remove(i)).to_multiset()
        } else {
            pairs_of(pieces.remove(i)).to_multiset().insert(pair_of(pieces[i]))
        },
    decreases pieces.len(),
{
    broadcast use vstd::seq_lib::group_to_multiset_ensures;

    let p = pieces.drop_last();
    if i == pieces.len() - 1 {
        assert(pieces.remove(i) =~= p);
    } else {
        let q = pieces.remove(i);
        lemma_piece_removed(p, i);
        assert(q.drop_last() =~= p.remove(i));
        assert(q.last() == pieces.last());
        let m = pairs_of(p.remove(i)).to_multiset();
        let (x, y) = (pair_of(pieces[i]), pair_of(pieces.last()));
        assert(m.insert(x).insert(y) =~= m.insert(y).insert(x));
    }
}

/// The same pieces in another order stand for the same pairs.
proof fn lemma_pieces_reordered(a: Seq<Seq<char>>, b: Seq<Seq<char>>)
    requires
        a.to_multiset() == b.to_multiset(),
    ensures
        pairs_of(a).to_multiset() == pairs_of(b).to_multiset(),
    decreases a.len(),
{
    broadcast use vstd::seq_lib::group_to_multiset_ensures;

    if a.len() == 0 {
        assert(b.to_multiset().len() == 0);
        assert(a =~= b);
    } else {
        let x = a.last();
        assert(a[a.len() - 1] == x);
        assert(a.to_multiset().count(x) > 0);
        assert(b.contains(x));
        let i = choose|i: int| 0 <= i < b.len() && b[i] == x;
        assert(a.remove(a.len() - 1).to_multiset() =~= b.remove(i).to_multiset());
        lemma_pieces_reordered(a.remove(a.len() - 1), b.remove(i));
        lemma_piece_removed(a, a.len() - 1);
        lemma_piece_removed(b, i);
    }
}

/// The canonical form of a query does not depend on the order of its pairs.
pub proof fn queries_may_be_reordered(q1: Seq<char>, q2: Seq<char>)
    requires
        text::split_on(q1, '&').to_multiset() == text::split_on(q2, '&').to_multiset(),
    ensures
        canonical_query_of(q1) == canonical_query_of(q2),
{
    let a = pairs_of(text::split_on(q1, '&'));
    let b = pairs_of(text::split_on(q2, '&'));
    lemma_pieces_reordered(text::split_on(q1, '&'), text::split_on(q2, '&'));
    queries_are_sorted(a);
    queries_are_sorted(b);
    let leq = |x: Pair, y: Pair| !pair_lt(y, x);
    lemma_pair_order(leq);
    vstd::seq_lib::lemma_sorted_unique(sorted_pairs(a), sorted_pairs(b), leq);
}

/// A pair of a query as text.
struct PairText {
    name: String,
    value: String,
}

spec fn pair_views(v: Seq<PairText>) -> Seq<Pair> {
    Seq::new(v.len(), |i: int| (v[i].name@, v[i].value@))
}

fn pair_before(a: &PairText, b: &PairText) -> (r: bool)
    ensures
        r == pair_lt((a.name@, a.value@), (b.name@, b.value@)),
{
    let (x, y) = (a.name.as_str().as_bytes(), b.name.as_str().as_bytes());
    bytes::bytes_lt(x, y) || (bytes::same_bytes(x, y) && bytes::bytes_lt(
        a.value.as_str().as_bytes(),
        b.value.as_str().as_bytes(),
    ))
}

fn insert_pair(list: &mut Vec<PairText>, p: PairText)
    ensures
        pair_views(final(list)@) == pair_views(old(list)@).insert(
            place_of(pair_views(old(list)@), (p.name@, p.value@)) as int,
            (p.name@, p.value@),
        ),
{
    let ghost v = pair_views(list@);
    let ghost q = (p.name@, p.value@);
    let mut n: usize = list.len();
    assert(v.take(n as int) =~= v);
    while n > 0 && pair_before(&p, &list[n - 1])
        invariant
            n <= list@.len(),
            v == pair_views(list@),
            q == (p.name@, p.value@),
            place_of(v, q) == place_of(v.take(n as int), q),
        decreases n,
    {
        assert(v.take(n as int).drop_last() =~= v.take(n - 1));
        n = n - 1;
    }
    let ghost l = list@;
    list.insert(n, p);
    assert(pair_views(list@) =~= v.insert(n as int, q));
}

/// The canonical form of a query: its pairs in ascending order.
pub fn canonical_query(q: &str) -> (r: String)
    ensures
        r@ == canonical_query_of(q@),
{
    let pieces = text::split(text::chars(q).as_slice(), '&');
    let ghost v = text::views(pieces@);
    let mut list: Vec<PairText> = Vec::new();
    let mut i: usize = 0;
    assert(v.take(0) =~= Seq::<Seq<char>>::empty());
    assert(pair_views(list@) =~= Seq::<Pair>::empty());
    while i < pieces.len()
        invariant
            i <= pieces@.len(),
            v == text::views(pieces@),
            pair_views(list@) == sorted_pairs(pairs_of(v.take(i as int))),
        decreases pieces@.len() - i,
    {
        assert(v.take(i + 1).drop_last() =~= v.take(i as int));
        assert(v.take(i + 1).last() == pieces@[i as int]@);
        let piece = &pieces[i];
        if piece.len() > 0 {
            let p = match text::split_once(piece.as_slice(), '=') {
                Some((k, x)) => PairText {
                    name: text::from_chars(k.as_slice()),
                    value: text::from_chars(x.as_slice()),
                },
                None => PairText {
                    name: text::from_chars(piece.as_slice()),
                    value: String::new(),
                },
            };
            let ghost done = pairs_of(v.take(i as int));
            let ghost q1 = (p.name@, p.value@);
            assert(q1.1 =~= pair_of(piece@).1);
            assert(done.push(q1).drop_last() =~= done);
            insert_pair(&mut list, p);
        }
        i = i + 1;
    }
    assert(v.take(v.len() as int) =~= v);
    let mut parts: Vec<String> = Vec::new();
    let ghost sorted = pair_views(list@);
    i = 0;
    while i < list.len()
        invariant
            i <= list@.len(),
            sorted == pair_views(list@),
            parts@.len() == i,
            forall|j: int|
                0 <= j < i ==> (#[trigger] parts@[j])@ == sorted[j].0 + "="@ + sorted[j].1,
        decreases list@.len() - i,
    {
        let mut t = list[i].name.clone();
        t.append("=");
        t.append(list[i].value.as_str());
        parts.push(t);
        i = i + 1;
    }
    assert(text::texts(parts@) =~= Seq::new(
        sorted.len(),
        |i: int| sorted[i].0 + "="@ + sorted[i].1,
    ));
    text::join(&parts, "&")
}

/// The text whose digest is signed.
pub open spec fn canonical_request_of(
    method: Seq<char>,
    path: Seq<char>,
    query: Seq<char>,
    headers: Seq<char>,
    names: Seq<char>,
    content_sha: Seq<char>,
) -> Seq<char> {
    method + "\n"@ + path + "\n"@ + query + "\n"@ + headers + "\n"@ + names + "\n"@ + content_sha
}

fn canonical_request(
    method: &str,
    path: &str,
    query: &str,
    headers: &str,
    names: &str,
    content_sha: &str,
) -> (r: String)
    ensures
        r@ == canonical_request_of(method@, path@, query@, headers@, names@, content_sha@),
{
    let mut t = method.to_owned();
    t.append("\n");
    t.append(path);
    t.append("\n");
    t.append(query);
    t.append("\n");
    t.append(headers);
    t.append("\n");
    t.append(names);
    t.append("\n");
    t.append(content_sha);
    t
}

/// The scope of a credential.
pub open spec fn scope_of(date: Seq<char>, region: Seq<char>, service: Seq<char>) -> Seq<char> {
    date + "/"@ + region + "/"@ + service + "/aws4_request"@
}

fn scope(date: &str, region: &str, service: &str) -> (r: String)
    ensures
        r@ == scope_of(date@, region@, service@),
{
    let mut t = date.to_owned();
    t.append("/");
    t.append(region);
    t.append("/");
    t.append(service);
    t.append("/aws4_request");
    t
}

/// The text that is signed, given the digest of the canonical request.
pub open spec fn to_sign(amz_date: Seq<char>, scope: Seq<char>, digest: Seq<u8>) -> Seq<char> {
    "AWS4-HMAC-SHA256\n"@ + amz_date + "\n"@ + scope + "\n"@ + digest::hex_of(digest)
}

/// The text that is signed, given the digest of the canonical request.
pub fn string_to_sign(amz_date: &str, scope: &str, digest: &[u8]) -> (r: String)
    ensures
        r@ == to_sign(amz_date@, scope@, digest@),
{
    let mut t = "AWS4-HMAC-SHA256\n".to_owned();
    t.append(amz_date);
    t.append("\n");
    t.append(scope);
    t.append("\n");
    t.append(digest::hex(digest).as_str());
    t
}

/// The key that signs the requests of one day, region and service.
pub open spec fn signing_key_of(
    secret: Seq<char>,
    date: Seq<char>,
    region: Seq<char>,
    service: Seq<char>,
) -> Seq<u8> {
    let day = digest::hmac_of(
        vstd::utf8::encode_utf8("AWS4"@ + secret),
        vstd::utf8::encode_utf8(date),
    );
    let zone = digest::hmac_of(day, vstd::utf8::encode_utf8(region));
    let desk = digest::hmac_of(zone, vstd::utf8::encode_utf8(service));
    digest::hmac_of(desk, vstd::utf8::encode_utf8("aws4_request"@))
}

fn signing_key(secret: &str, date: &str, region: &str, service: &str) -> (r: Vec<u8>)
    ensures
        r@ == signing_key_of(secret@, date@, region@, service@),
{
    let mut first = "AWS4".to_owned();
    first.append(secret);
    let day = digest::hmac(first.as_str().as_bytes(), date.as_bytes());
    let zone = digest::hmac(day.as_slice(), region.as_bytes());
    let desk = digest::hmac(zone.as_slice(), service.as_bytes());
    digest::hmac(desk.as_slice(), "aws4_request".as_bytes())
}

/// What the signature of an acceptable request must be made of.
#[derive(Debug)]
pub struct Claim {
    pub date: String,
    pub region: String,
    pub service: String,
    pub amz_date: String,
    pub canonical_request: String,
    pub signature: Vec<u8>,
}

/// A [`Claim`] with its texts taken by value.
pub ghost struct ClaimView {
    pub date: Seq<char>,
    pub region: Seq<char>,
    pub service: Seq<char>,
    pub amz_date: Seq<char>,
    pub canonical_request: Seq<char>,
    pub signature: Seq<u8>,
}

impl View for Claim {
    type V = ClaimView;

    open spec fn view(&self) -> ClaimView {
        ClaimView {
            date: self.date@,
            region: self.region@,
            service: self.service@,
            amz_date: self.amz_date@,
            canonical_request: self.canonical_request@,
            signature: self.signature@,
        }
    }
}

/// A request as it arrived: its path and query not decoded, and the hexadecimal digest of
/// its body.
pub ghost struct RequestView {
    pub method: Seq<char>,
    pub path: Seq<char>,
    pub query: Seq<char>,
    pub headers: Seq<(Seq<char>, Seq<char>)>,
    pub body_sha: Seq<char>,
}

/// The digest that the request names for its body.
pub open spec fn content_sha_of(h: Seq<(Seq<char>, Seq<char>)>) -> Seq<char> {
    match header(h, "x-amz-content-sha256"@) {
        Some(v) => v,
        None => "UNSIGNED-PAYLOAD"@,
    }
}

/// Whether a time is further from `now` than allowed.
pub open spec fn is_skewed(t: int, now: int, max_skew: int) -> bool {
    t - now > max_skew || now - t > max_skew
}

/// What is wrong with the time of a request, if anything.
pub open spec fn time_fault(amz_date: Seq<char>, now: int, max_skew: int) -> Option<Seq<char>> {
    if max_skew <= 0 {
        None
    } else {
        match amz_time(amz_date) {
            None => Some("bad x-amz-date"@),
            Some(t) => if is_skewed(t, now, max_skew) {
                Some("request time too skewed"@)
            } else {
                None
            },
        }
    }
}

/// What can be told of a request without its signature: the first fault, or what must
/// have been signed.
pub open spec fn examined(
    cfg: SigV4Config,
    r: RequestView,
    now: int,
) -> Result<ClaimView, Seq<char>> {
    match header(r.headers, "authorization"@) {
        None => Err("missing Authorization"@),
        Some(v) => match parsed_auth(v) {
            Err(e) => Err(e),
            Ok(a) => if a.access_key != cfg.access_key@ {
                Err("unknown access key"@)
            } else {
                match header(r.headers, "x-amz-date"@) {
                    None => Err("missing x-amz-date"@),
                    Some(amz_date) => if !bytes::has_prefix(amz_date, a.date) {
                        Err("x-amz-date / credential date mismatch"@)
                    } else {
                        match time_fault(amz_date, now, cfg.max_skew_secs as int) {
                            Some(e) => Err(e),
                            None => examined_content(r, a, amz_date),
                        }
                    },
                }
            },
        },
    }
}

/// The part of [`examined`] that concerns the signed content.
pub open spec fn examined_content(
    r: RequestView,
    a: AuthView,
    amz_date: Seq<char>,
) -> Result<ClaimView, Seq<char>> {
    let sha = content_sha_of(r.headers);
    if sha != "UNSIGNED-PAYLOAD"@ && text::lowered(sha) != text::lowered(r.body_sha) {
        Err("x-amz-content-sha256 does not match body"@)
    } else {
        match canonical_headers_of(a.signed_headers, r.headers) {
            Err(e) => Err(e),
            Ok(lines) => match digest::unhex_of(a.signature_hex) {
                None => Err("bad signature hex"@),
                Some(sig) => Ok(
                    ClaimView {
                        date: a.date,
                        region: a.region,
                        service: a.service,
                        amz_date,
                        canonical_request: canonical_request_of(
                            r.method,
                            r.path,
                            canonical_query_of(r.query),
                            lines,
                            text::joined(a.signed_headers, ";"@),
                            sha,
                        ),
                        signature: sig,
                    },
                ),
            },
        }
    }
}

/// The signature that a claim must carry.
pub open spec fn expected_signature(secret: Seq<char>, c: ClaimView) -> Seq<u8> {
    digest::hmac_of(
        signing_key_of(secret, c.date, c.region, c.service),
        vstd::utf8::encode_utf8(
            to_sign(
                c.amz_date,
                scope_of(c.date, c.region, c.service),
                digest::sha256_of(vstd::utf8::encode_utf8(c.canonical_request)),
            ),
        ),
    )
}

/// Whether a request is admitted, or the first reason why it is not.
pub open spec fn verdict(cfg: SigV4Config, r: RequestView, now: int) -> Result<(), Seq<char>> {
    match examined(cfg, r, now) {
        Err(e) => Err(e),
        Ok(c) => if c.signature == expected_signature(cfg.secret_key@, c) {
            Ok(())
        } else {
            Err("signature mismatch"@)
        },
    }
}

/// Checks everything about a request but its signature.
pub fn examine(
    cfg: &SigV4Config,
    method: &str,
    raw_path: &str,
    raw_query: &str,
    headers: &Headers,
    body_sha256_hex: &str,
    now: i64,
) -> (r: Result<Claim, String>)
    ensures
        ({
            let q = (RequestView {
                method: method@,
                path: raw_path@,
                query: raw_query@,
                headers: headers@,
                body_sha: body_sha256_hex@,
            });
            match r {
                Ok(c) => examined(*cfg, q, now as int) == Ok::<ClaimView, Seq<char>>(c@),
                Err(e) => examined(*cfg, q, now as int) == Err::<ClaimView, Seq<char>>(e@),
            }
        }),
{
    let auth = match headers.get("authorization") {
        Some(v) => match parse_auth_header(v.as_str()) {
            Ok(a) => a,
            Err(e) => {
                return Err(e);
            },
        },
        None => {
            return Err("missing Authorization".to_owned());
        },
    };
    if !text::same_text(auth.access_key.as_str(), cfg.access_key.as_str()) {
        return Err("unknown access key".to_owned());
    }
    let amz_date = match headers.get("x-amz-date") {
        Some(v) => v,
        None => {
            return Err("missing x-amz-date".to_owned());
        },
    };
    if !text::has_prefix(
        text::chars(amz_date.as_str()).as_slice(),
        text::chars(auth.date.as_str()).as_slice(),
    ) {
        return Err("x-amz-date / credential date mismatch".to_owned());
    }
    if cfg.max_skew_secs > 0 {
        match parse_amz_date(amz_date.as_str()) {
            None => {
                return Err("bad x-amz-date".to_owned());
            },
            Some(t) => {
                let gap: i128 = t as i128 - now as i128;
                let most: i128 = cfg.max_skew_secs as i128;
                if gap > most || 0 - gap > most {
                    return Err("request time too skewed".to_owned());
                }
            },
        }
    }
    let content_sha = match headers.get("x-amz-content-sha256") {
        Some(v) => v.clone(),
        None => "UNSIGNED-PAYLOAD".to_owned(),
    };
    if !text::same_text(content_sha.as_str(), "UNSIGNED-PAYLOAD") && !text::same_chars(
        text::lower(text::chars(content_sha.as_str()).as_slice()).as_slice(),
        text::lower(text::chars(body_sha256_hex).as_slice()).as_slice(),
    ) {
        return Err("x-amz-content-sha256 does not match body".to_owned());
    }
    let lines = match canonical_headers(&auth.signed_headers, headers) {
        Ok(t) => t,
        Err(e) => {
            return Err(e);
        },
    };
    let signature = match digest::hex_decode(auth.signature_hex.as_str()) {
        Some(b) => b,
        None => {
            return Err("bad signature hex".to_owned());
        },
    };
    let canonical_request = canonical_request(
        method,
        raw_path,
        canonical_query(raw_query).as_str(),
        lines.as_str(),
        text::join(&auth.signed_headers, ";").as_str(),
        content_sha.as_str(),
    );
    Ok(
        Claim {
            date: auth.date,
            region: auth.region,
            service: auth.service,
            amz_date: amz_date.clone(),
            canonical_request,
            signature,
        },
    )
}

/// Checks a request's signature. The path and query are those of the request line, not
/// decoded; `body_sha256_hex` is the digest of the body that arrived, and `now` the time
/// in seconds since 1970.
pub fn verify(
    cfg: &SigV4Config,
    method: &str,
    raw_path: &str,
    raw_query: &str,
    headers: &Headers,
    body_sha256_hex: &str,
    now: i64,
) -> (r: Result<(), String>)
    ensures
        ({
            let q = (RequestView {
                method: method@,
                path: raw_path@,
                query: raw_query@,
                headers: headers@,
                body_sha: body_sha256_hex@,
            });
            match r {
                Ok(_) => verdict(*cfg, q, now as int) == Ok::<(), Seq<char>>(()),
                Err(e) => verdict(*cfg, q, now as int) == Err::<(), Seq<char>>(e@),
            }
        }),
{
    let c = match examine(cfg, method, raw_path, raw_query, headers, body_sha256_hex, now) {
        Ok(c) => c,
        Err(e) => {
            return Err(e);
        },
    };
    let key = signing_key(
        cfg.secret_key.as_str(),
        c.date.as_str(),
        c.region.as_str(),
        c.service.as_str(),
    );
    let text = string_to_sign(
        c.amz_date.as_str(),
        scope(c.date.as_str(), c.region.as_str(), c.service.as_str()).as_str(),
        digest::sha256(c.canonical_request.as_str().as_bytes()).as_slice(),
    );
    if digest::hmac_verify(key.as_slice(), text.as_str().as_bytes(), c.signature.as_slice()) {
        Ok(())
    } else {
        Err("signature mismatch".to_owned())
    }
}

/// One line for each header to sign, with an empty value for one that is missing.
pub open spec fn signed_lines(
    names: Seq<Seq<char>>,
    h: Seq<(Seq<char>, Seq<char>)>,
) -> Seq<char>
    decreases names.len(),
{
    if names.len() == 0 {
        Seq::empty()
    } else {
        let v = match header(h, text::lowered(names.last())) {
            Some(v) => v,
            None => Seq::empty(),
        };
        signed_lines(names.drop_last(), h) + (text::lowered(names.last()) + ":"@ + text::trimmed(v)
            + "\n"@)
    }
}

/// The claim that a client signs. The date opens with the day in eight characters.
pub open spec fn client_claim(
    method: Seq<char>,
    path: Seq<char>,
    query: Seq<char>,
    h: Seq<(Seq<char>, Seq<char>)>,
    names: Seq<Seq<char>>,
    amz_date: Seq<char>,
    region: Seq<char>,
) -> ClaimView {
    ClaimView {
        date: amz_date.take(8),
        region,
        service: "s3"@,
        amz_date,
        canonical_request: canonical_request_of(
            method,
            path,
            canonical_query_of(query),
            signed_lines(names, h),
            text::lowered(text::joined(names, ";"@)),
            content_sha_of(h),
        ),
        signature: Seq::empty(),
    }
}

/// The `Authorization` header that carries a signature.
pub open spec fn auth_text(
    access_key: Seq<char>,
    scope: Seq<char>,
    names: Seq<char>,
    signature: Seq<u8>,
) -> Seq<char> {
    "AWS4-HMAC-SHA256 Credential="@ + access_key + "/"@ + scope + ", SignedHeaders="@ + names
        + ", Signature="@ + digest::hex_of(signature)
}

/// The `Authorization` header that a client sends.
pub open spec fn signed_auth(
    cfg: SigV4Config,
    method: Seq<char>,
    path: Seq<char>,
    query: Seq<char>,
    h: Seq<(Seq<char>, Seq<char>)>,
    names: Seq<Seq<char>>,
    amz_date: Seq<char>,
    region: Seq<char>,
) -> Seq<char> {
    let c = client_claim(method, path, query, h, names, amz_date, region);
    auth_text(
        cfg.access_key@,
        scope_of(c.date, c.region, c.service),
        text::lowered(text::joined(names, ";"@)),
        expected_signature(cfg.secret_key@, c),
    )
}

/// The `Authorization` header of a request with that signature.
pub fn authorization(
    access_key: &str,
    scope: &str,
    names: &str,
    signature: &[u8],
) -> (r: String)
    ensures
        r@ == auth_text(access_key@, scope@, names@, signature@),
{
    let mut t = "AWS4-HMAC-SHA256 Credential=".to_owned();
    t.append(access_key);
    t.append("/");
    t.append(scope);
    t.append(", SignedHeaders=");
    t.append(names);
    t.append(", Signature=");
    t.append(digest::hex(signature).as_str());
    t
}

/// The lines of the headers to sign.
fn lines_to_sign(names: &Vec<String>, headers: &Headers) -> (r: String)
    ensures
        r@ == signed_lines(text::texts(names@), headers@),
{
    let mut out = String::new();
    let mut i: usize = 0;
    let ghost t = text::texts(names@);
    assert(t.take(0) =~= Seq::<Seq<char>>::empty());
    while i < names.len()
        invariant
            i <= names@.len(),
            t == text::texts(names@),
            out@ == signed_lines(t.take(i as int), headers@),
        decreases names@.len() - i,
    {
        assert(t.take(i + 1).drop_last() =~= t.take(i as int));
        assert(t.take(i + 1).last() == names@[i as int]@);
        let name = text::from_chars(
            text::lower(text::chars(names[i].as_str()).as_slice()).as_slice(),
        );
        let value = match headers.get(name.as_str()) {
            Some(v) => text::trim(text::chars(v.as_str()).as_slice()),
            None => text::trim(Vec::new().as_slice()),
        };
        let ghost before = out@;
        let v = text::from_chars(value.as_slice());
        out.append(name.as_str());
        out.append(":");
        out.append(v.as_str());
        out.append("\n");
        assert(out@ =~= before + (name@ + ":"@ + v@ + "\n"@));
        i = i + 1;
    }
    assert(t.take(t.len() as int) =~= t);
    out
}

/// Signs a request as a client does, for the service `s3`.
pub fn sign_for_test(
    cfg: &SigV4Config,
    method: &str,
    raw_path: &str,
    raw_query: &str,
    headers: &Headers,
    signed_headers: &Vec<String>,
    amz_date: &str,
    region: &str,
) -> (r: String)
    requires
        amz_date@.len() >= 8,
        vstd::utf8::is_ascii_chars(amz_date@.take(8)),
    ensures
        r@ == signed_auth(
            *cfg,
            method@,
            raw_path@,
            raw_query@,
            headers@,
            text::texts(signed_headers@),
            amz_date@,
            region@,
        ),
{
    let date = text::from_chars(
        text::slice_of(text::chars(amz_date).as_slice(), 0, 8).as_slice(),
    );
    assert(date@ =~= amz_date@.take(8));
    let content_sha = match headers.get("x-amz-content-sha256") {
        Some(v) => v.clone(),
        None => "UNSIGNED-PAYLOAD".to_owned(),
    };
    let names = text::from_chars(
        text::lower(text::chars(text::join(signed_headers, ";").as_str()).as_slice()).as_slice(),
    );
    let request = canonical_request(
        method,
        raw_path,
        canonical_query(raw_query).as_str(),
        lines_to_sign(signed_headers, headers).as_str(),
        names.as_str(),
        content_sha.as_str(),
    );
    let scope = scope(date.as_str(), region, "s3");
    let text = string_to_sign(
        amz_date,
        scope.as_str(),
        digest::sha256(request.as_str().as_bytes()).as_slice(),
    );
    let key = signing_key(cfg.secret_key.as_str(), date.as_str(), region, "s3");
    let sig = digest::hmac(key.as_slice(), text.as_str().as_bytes());
    authorization(cfg.access_key.as_str(), scope.as_str(), names.as_str(), sig.as_slice())
}

/// A request that is admitted has a known key, a time within the allowed skew, the body
/// that it names, every header that it lists, and the signature made with the secret.
pub proof fn admitted_requests_are_genuine(cfg: SigV4Config, r: RequestView, now: int)
    requires
        verdict(cfg, r, now) is Ok,
    ensures
        header(r.headers, "authorization"@) is Some,
        header(r.headers, "x-amz-date"@) is Some,
        parsed_auth(header(r.headers, "authorization"@)->0) is Ok,
        ({
            let a = parsed_auth(header(r.headers, "authorization"@)->0)->Ok_0;
            let amz_date = header(r.headers, "x-amz-date"@)->0;
            let sha = content_sha_of(r.headers);
            &&& a.access_key == cfg.access_key@
            &&& cfg.max_skew_secs > 0 ==> amz_time(amz_date) is Some && !is_skewed(
                amz_time(amz_date)->0,
                now,
                cfg.max_skew_secs as int,
            )
            &&& sha == "UNSIGNED-PAYLOAD"@ || text::lowered(sha) == text::lowered(r.body_sha)
            &&& forall|i: int|
                0 <= i < a.signed_headers.len() ==> header(
                    r.headers,
                    #[trigger] a.signed_headers[i],
                ) is Some
            &&& digest::unhex_of(a.signature_hex) == Some(
                expected_signature(cfg.secret_key@, examined(cfg, r, now)->Ok_0),
            )
        }),
{
    let a = parsed_auth(header(r.headers, "authorization"@)->0)->Ok_0;
    lemma_lines_need_headers(a.signed_headers, r.headers);
}

proof fn lemma_lines_need_headers(names: Seq<Seq<char>>, h: Seq<(Seq<char>, Seq<char>)>)
    requires
        canonical_headers_of(names, h) is Ok,
    ensures
        forall|i: int| 0 <= i < names.len() ==> header(h, #[trigger] names[i]) is Some,
    decreases names.len(),
{
    if names.len() > 0 {
        let p = names.drop_last();
        lemma_lines_need_headers(p, h);
        assert forall|i: int| 0 <= i < names.len() implies header(
            h,
            #[trigger] names[i],
        ) is Some by {
            if i < p.len() {
                assert(p[i] == names[i]);
            }
        }
    }
}

/// A request whose body is not the one that it names is refused.
pub proof fn replaced_bodies_are_refused(cfg: SigV4Config, r: RequestView, now: int)
    requires
        content_sha_of(r.headers) != "UNSIGNED-PAYLOAD"@,
        text::lowered(content_sha_of(r.headers)) != text::lowered(r.body_sha),
    ensures
        verdict(cfg, r, now) is Err,
{
}

/// The verdict on a request does not depend on the order of its query's pairs.
pub proof fn reordered_queries_are_judged_alike(
    cfg: SigV4Config,
    r: RequestView,
    query: Seq<char>,
    now: int,
)
    requires
        text::split_on(r.query, '&').to_multiset() == text::split_on(query, '&').to_multiset(),
    ensures
        verdict(cfg, (RequestView { query, ..r }), now) == verdict(cfg, r, now),
{
    queries_may_be_reordered(r.query, query);
}

/// What is admitted under one access key is refused under every other.
pub proof fn other_access_keys_are_refused(
    cfg: SigV4Config,
    other: SigV4Config,
    r: RequestView,
    now: int,
)
    requires
        verdict(cfg, r, now) is Ok,
        other.access_key@ != cfg.access_key@,
    ensures
        verdict(other, r, now) is Err,
{
    admitted_requests_are_genuine(cfg, r, now);
    if verdict(other, r, now) is Ok {
        admitted_requests_are_genuine(other, r, now);
    }
}

proof fn lemma_header_behind(
    h: Seq<(Seq<char>, Seq<char>)>,
    e: (Seq<char>, Seq<char>),
    name: Seq<char>,
)
    ensures
        header(h.push(e), name) == (if header(h, name) is Some {
            header(h, name)
        } else if e.0 == name {
            Some(e.1)
        } else {
            None
        }),
    decreases h.len(),
{
    reveal_with_fuel(header, 2);
    let g = h.push(e);
    if h.len() == 0 {
        assert(g[0] == e);
        assert(g.skip(1) =~= Seq::<(Seq<char>, Seq<char>)>::empty());
    } else {
        assert(g[0] == h[0]);
        assert(g.skip(1) =~= h.skip(1).push(e));
        lemma_header_behind(h.skip(1), e, name);
    }
}

/// A header name that a list can carry: no separator and no white space.
pub open spec fn is_plain_name(n: Seq<char>) -> bool {
    text::lacks(n, ',') && text::lacks(n, ';') && forall|i: int|
        0 <= i < n.len() ==> !text::is_white(#[trigger] n[i])
}

/// Names in lower case.
pub open spec fn lowered_all(names: Seq<Seq<char>>) -> Seq<Seq<char>> {
    Seq::new(names.len(), |i: int| text::lowered(names[i]))
}

proof fn lemma_lowered_join(names: Seq<Seq<char>>)
    requires
        forall|i: int| 0 <= i < names.len() ==> is_plain_name(#[trigger] names[i]),
    ensures
        text::joined(lowered_all(names), ";"@) == text::lowered(text::joined(names, ";"@)),
        text::lacks(text::lowered(text::joined(names, ";"@)), ','),
        forall|i: int|
            0 <= i < text::joined(names, ";"@).len() ==> !text::is_white(
                #[trigger] text::lowered(text::joined(names, ";"@))[i],
            ),
        names.len() > 0 ==> text::split_on(text::lowered(text::joined(names, ";"@)), ';')
            == lowered_all(names),
    decreases names.len(),
{
    reveal_strlit(";");
    let l = lowered_all(names);
    let low = text::lowered(text::joined(names, ";"@));
    if names.len() > 0 {
        let last = names.last();
        let small = text::lowered(last);
        assert(is_plain_name(names[names.len() - 1]));
        assert forall|i: int| 0 <= i < small.len() implies #[trigger] small[i] != ',' && small[i]
            != ';' && !text::is_white(small[i]) by {
            assert(!text::is_white(last[i]) && last[i] != ',' && last[i] != ';');
        }
        text::lemma_split_plain(small, ';');
        if names.len() == 1 {
            assert(names[0] == last);
            assert(l[0] == small);
            assert(low =~= small);
            assert(text::split_on(low, ';') =~= l);
        } else {
            let p = names.drop_last();
            assert forall|i: int| 0 <= i < p.len() implies is_plain_name(#[trigger] p[i]) by {
                assert(p[i] == names[i]);
            }
            lemma_lowered_join(p);
            assert(l.drop_last() =~= lowered_all(p));
            let head = text::lowered(text::joined(p, ";"@));
            assert(";"@ =~= seq![';']);
            assert(low =~= head + seq![';'] + small);
            assert(text::joined(l, ";"@) =~= low);
            assert forall|i: int| 0 <= i < low.len() implies #[trigger] low[i] != ','
                && !text::is_white(low[i]) by {
                if i < head.len() {
                    assert(low[i] == head[i]);
                } else if i > head.len() {
                    assert(low[i] == small[i - head.len() - 1]);
                }
            }
            text::lemma_split_around(head, small, ';');
            assert(lowered_all(p) + seq![small] =~= l);
        }
    } else {
        assert(low =~= Seq::<char>::empty());
    }
}

proof fn lemma_hex_is_plain(b: Seq<u8>)
    ensures
        text::lacks(digest::hex_of(b), ','),
        forall|i: int|
            0 <= i < digest::hex_of(b).len() ==> !text::is_white(
                #[trigger] digest::hex_of(b)[i],
            ),
    decreases b.len(),
{
    if b.len() > 0 {
        lemma_hex_is_plain(b.drop_last());
        let h = digest::hex_of(b);
        let g = digest::hex_of(b.drop_last());
        let x = b.last() as nat;
        assert(x / 16 < 16 && x % 16 < 16);
        assert forall|i: int| 0 <= i < h.len() implies #[trigger] h[i] != ',' && !text::is_white(
            h[i],
        ) by {
            if i < g.len() {
                assert(h[i] == g[i]);
            }
        }
    }
}

proof fn lemma_lines_agree(
    names: Seq<Seq<char>>,
    h: Seq<(Seq<char>, Seq<char>)>,
    e: (Seq<char>, Seq<char>),
)
    requires
        forall|i: int|
            0 <= i < names.len() ==> {
                let v = header(h, text::lowered(#[trigger] names[i]));
                v is Some && collapsed(v->0) == text::trimmed(v->0)
            },
    ensures
        canonical_headers_of(lowered_all(names), h.push(e)) == Ok::<Seq<char>, Seq<char>>(
            signed_lines(names, h),
        ),
    decreases names.len(),
{
    let l = lowered_all(names);
    if names.len() > 0 {
        let p = names.drop_last();
        assert forall|i: int| 0 <= i < p.len() implies {
            let v = header(h, text::lowered(#[trigger] p[i]));
            v is Some && collapsed(v->0) == text::trimmed(v->0)
        } by {
            assert(p[i] == names[i]);
        }
        lemma_lines_agree(p, h, e);
        assert(l.drop_last() =~= lowered_all(p));
        let n = names[names.len() - 1];
        assert(l.last() == text::lowered(n));
        lemma_header_behind(h, e, text::lowered(n));
    }
}

/// The credential of a client's header.
spec fn credential_of(key: Seq<char>, date: Seq<char>, region: Seq<char>) -> Seq<char> {
    key + seq!['/'] + (date + seq!['/'] + (region + seq!['/'] + ("s3"@ + seq!['/']
        + "aws4_request"@)))
}

proof fn lemma_credential_splits(key: Seq<char>, date: Seq<char>, region: Seq<char>)
    requires
        text::lacks(key, '/'),
        text::lacks(date, '/'),
        text::lacks(region, '/'),
    ensures
        text::split_on(credential_of(key, date, region), '/') == seq![
            key,
            date,
            region,
            "s3"@,
            "aws4_request"@,
        ],
{
    reveal_strlit("aws4_request");
    reveal_strlit("s3");
    let t3 = "s3"@ + seq!['/'] + "aws4_request"@;
    let t2 = region + seq!['/'] + t3;
    let t1 = date + seq!['/'] + t2;
    text::lemma_split_plain(key, '/');
    text::lemma_split_plain(date, '/');
    text::lemma_split_plain(region, '/');
    text::lemma_split_plain("s3"@, '/');
    text::lemma_split_plain("aws4_request"@, '/');
    text::lemma_split_around("s3"@, "aws4_request"@, '/');
    text::lemma_split_around(region, t3, '/');
    text::lemma_split_around(date, t2, '/');
    text::lemma_split_around(key, t1, '/');
    assert(text::split_on(credential_of(key, date, region), '/') =~= seq![
        key,
        date,
        region,
        "s3"@,
        "aws4_request"@,
    ]);
}

/// The three parts of a client's header behind the scheme.
spec fn three_parts(p0: Seq<char>, p1: Seq<char>, p2: Seq<char>) -> Seq<char> {
    p0 + seq![','] + ((seq![' '] + p1) + seq![','] + (seq![' '] + p2))
}

proof fn lemma_three_parts(p0: Seq<char>, p1: Seq<char>, p2: Seq<char>)
    requires
        text::lacks(p0, ','),
        text::lacks(p1, ','),
        text::lacks(p2, ','),
    ensures
        text::split_on(three_parts(p0, p1, p2), ',') == seq![p0, seq![' '] + p1, seq![' '] + p2],
{
    let q1 = seq![' '] + p1;
    let q2 = seq![' '] + p2;
    assert forall|i: int| 0 <= i < q1.len() implies #[trigger] q1[i] != ',' by {
        if i >= 1 {
            assert(q1[i] == p1[i - 1]);
        }
    }
    assert forall|i: int| 0 <= i < q2.len() implies #[trigger] q2[i] != ',' by {
        if i >= 1 {
            assert(q2[i] == p2[i - 1]);
        }
    }
    text::lemma_split_plain(p0, ',');
    text::lemma_split_plain(q1, ',');
    text::lemma_split_plain(q2, ',');
    text::lemma_split_around(q1, q2, ',');
    text::lemma_split_around(p0, q1 + seq![','] + q2, ',');
    assert(text::split_on(three_parts(p0, p1, p2), ',') =~= seq![p0, q1, q2]);
}

proof fn lemma_strip_own(label: Seq<char>, v: Seq<char>)
    ensures
        text::stripped(label + v, label) == Some(v),
{
    let s = label + v;
    assert(s.subrange(0, label.len() as int) =~= label);
    assert(s.skip(label.len() as int) =~= v);
}

proof fn lemma_strip_other(label: Seq<char>, v: Seq<char>, other: Seq<char>, i: int)
    requires
        0 <= i < label.len(),
        i < other.len(),
        label[i] != other[i],
    ensures
        text::stripped(label + v, other) is None,
{
    let s = label + v;
    if other.len() <= s.len() {
        assert(s.subrange(0, other.len() as int)[i] == label[i]);
    }
}

/// Each label is found in its own part.
proof fn lemma_fields(cred: Seq<char>, nm: Seq<char>, hex: Seq<char>)
    requires
        cred.len() > 0,
        !text::is_white(cred.last()),
        nm.len() > 0 ==> !text::is_white(nm.last()),
        hex.len() > 0 ==> !text::is_white(hex.last()),
    ensures
        ({
            let parts = seq![
                "Credential="@ + cred,
                seq![' '] + ("SignedHeaders="@ + nm),
                seq![' '] + ("Signature="@ + hex),
            ];
            &&& field(parts, "Credential="@) == Some(cred)
            &&& field(parts, "SignedHeaders="@) == Some(nm)
            &&& field(parts, "Signature="@) == Some(hex)
        }),
{
    reveal_strlit("Credential=");
    reveal_strlit("SignedHeaders=");
    reveal_strlit("Signature=");
    let (a, b, c) = ("Credential="@, "SignedHeaders="@, "Signature="@);
    let p0 = a + cred;
    let p1 = b + nm;
    let p2 = c + hex;
    let parts = seq![p0, seq![' '] + p1, seq![' '] + p2];
    assert(p0.last() == cred.last());
    assert(p1.last() == (if nm.len() > 0 {
        nm.last()
    } else {
        '='
    }));
    assert(p2.last() == (if hex.len() > 0 {
        hex.last()
    } else {
        '='
    }));
    text::lemma_trimmed_plain(p0);
    text::lemma_trimmed_plain(p1);
    text::lemma_trimmed_plain(p2);
    lemma_strip_own(a, cred);
    lemma_strip_own(b, nm);
    lemma_strip_own(c, hex);
    lemma_strip_other(b, nm, a, 0);
    lemma_strip_other(c, hex, a, 0);
    lemma_strip_other(c, hex, b, 4);
    let d1 = parts.drop_last();
    let d0 = d1.drop_last();
    assert(parts.last() == seq![' '] + p2);
    assert(d1.last() == seq![' '] + p1);
    assert(d0.last() == p0);
    assert(field(d0, a) == Some(cred));
    assert(field(d1, a) == Some(cred));
    assert(field(d1, b) == Some(nm));
}

/// The parts of an `Authorization` header that a client wrote.
proof fn lemma_auth_reads_back(
    key: Seq<char>,
    date: Seq<char>,
    region: Seq<char>,
    names: Seq<Seq<char>>,
    sig: Seq<u8>,
)
    requires
        text::lacks(key, '/'),
        text::lacks(key, ','),
        text::lacks(date, '/'),
        text::lacks(date, ','),
        text::lacks(region, '/'),
        text::lacks(region, ','),
        names.len() > 0,
        forall|i: int| 0 <= i < names.len() ==> is_plain_name(#[trigger] names[i]),
    ensures
        parsed_auth(
            auth_text(
                key,
                scope_of(date, region, "s3"@),
                text::lowered(text::joined(names, ";"@)),
                sig,
            ),
        ) == Ok::<AuthView, Seq<char>>(
            AuthView {
                access_key: key,
                date,
                region,
                service: "s3"@,
                signed_headers: lowered_all(names),
                signature_hex: digest::hex_of(sig),
            },
        ),
{
    let nm = text::lowered(text::joined(names, ";"@));
    let hex = digest::hex_of(sig);
    let scope = scope_of(date, region, "s3"@);
    let all = auth_text(key, scope, nm, sig);
    let cred = credential_of(key, date, region);
    let p0 = "Credential="@ + cred;
    let p1 = "SignedHeaders="@ + nm;
    let p2 = "Signature="@ + hex;
    let body = three_parts(p0, p1, p2);
    lemma_lowered_join(names);
    lemma_hex_is_plain(sig);
    lemma_credential_splits(key, date, region);
    assert(cred.len() > 0 && cred.last() == 't') by {
        reveal_strlit("aws4_request");
    }
    lemma_fields(cred, nm, hex);
    assert(text::lacks(p0, ',') && text::lacks(p1, ',') && text::lacks(p2, ',')) by {
        reveal_strlit("Credential=");
        reveal_strlit("SignedHeaders=");
        reveal_strlit("Signature=");
        reveal_strlit("s3");
        reveal_strlit("aws4_request");
    }
    lemma_three_parts(p0, p1, p2);
    assert(all == "AWS4-HMAC-SHA256"@ + (seq![' '] + body)) by {
        lemma_auth_text(key, date, region, nm, hex);
    }
    lemma_strip_own("AWS4-HMAC-SHA256"@, seq![' '] + body);
    assert(text::trimmed(seq![' '] + body) == body) by {
        reveal_strlit("Credential=");
        reveal_strlit("Signature=");
        assert(body[0] == 'C');
        assert(body.last() == p2.last());
        text::lemma_trimmed_plain(body);
    }
    assert(name_list(nm) =~= lowered_all(names)) by {
        assert forall|i: int| 0 <= i < names.len() implies #[trigger] name_list(nm)[i]
            == lowered_all(names)[i] by {
            assert(text::lowered(text::lowered(names[i])) =~= text::lowered(names[i]));
        }
    }
}

/// A client's header, regrouped.
proof fn lemma_auth_text(
    key: Seq<char>,
    date: Seq<char>,
    region: Seq<char>,
    nm: Seq<char>,
    hex: Seq<char>,
)
    ensures
        "AWS4-HMAC-SHA256 Credential="@ + key + "/"@ + scope_of(date, region, "s3"@)
            + ", SignedHeaders="@ + nm + ", Signature="@ + hex == "AWS4-HMAC-SHA256"@ + (seq![' ']
            + three_parts(
            "Credential="@ + credential_of(key, date, region),
            "SignedHeaders="@ + nm,
            "Signature="@ + hex,
        )),
{
    reveal_strlit("AWS4-HMAC-SHA256 Credential=");
    reveal_strlit("AWS4-HMAC-SHA256");
    reveal_strlit("Credential=");
    reveal_strlit("SignedHeaders=");
    reveal_strlit("Signature=");
    reveal_strlit(", SignedHeaders=");
    reveal_strlit(", Signature=");
    reveal_strlit("/");
    reveal_strlit("/aws4_request");
    reveal_strlit("aws4_request");
    assert("AWS4-HMAC-SHA256 Credential="@ =~= "AWS4-HMAC-SHA256"@ + seq![' '] + "Credential="@);
    assert("/"@ =~= seq!['/']);
    assert("/aws4_request"@ =~= seq!['/'] + "aws4_request"@);
    assert(", SignedHeaders="@ =~= seq![','] + seq![' '] + "SignedHeaders="@);
    assert(", Signature="@ =~= seq![','] + seq![' '] + "Signature="@);
    let scope = scope_of(date, region, "s3"@);
    let tail = date + seq!['/'] + (region + seq!['/'] + ("s3"@ + seq!['/'] + "aws4_request"@));
    assert(scope =~= tail);
    let cred = credential_of(key, date, region);
    assert(key + "/"@ + scope =~= cred);
    let left = "AWS4-HMAC-SHA256 Credential="@ + key + "/"@ + scope;
    assert(left =~= "AWS4-HMAC-SHA256"@ + seq![' '] + ("Credential="@ + cred));
    let q1 = ", SignedHeaders="@ + nm;
    let q2 = ", Signature="@ + hex;
    assert(q1 =~= seq![','] + (seq![' '] + ("SignedHeaders="@ + nm)));
    assert(q2 =~= seq![','] + (seq![' '] + ("Signature="@ + hex)));
    lemma_regroup(
        left,
        ", SignedHeaders="@,
        nm,
        ", Signature="@,
        hex,
        "AWS4-HMAC-SHA256"@,
        "Credential="@ + cred,
        "SignedHeaders="@ + nm,
        "Signature="@ + hex,
    );
}

proof fn lemma_regroup(
    left: Seq<char>,
    a: Seq<char>,
    nm: Seq<char>,
    b: Seq<char>,
    hex: Seq<char>,
    scheme: Seq<char>,
    p0: Seq<char>,
    p1: Seq<char>,
    p2: Seq<char>,
)
    requires
        left == scheme + seq![' '] + p0,
        a + nm == seq![','] + (seq![' '] + p1),
        b + hex == seq![','] + (seq![' '] + p2),
    ensures
        left + a + nm + b + hex == scheme + (seq![' '] + three_parts(p0, p1, p2)),
{
    assert(left + a + nm + b + hex =~= left + (a + nm) + (b + hex));
    assert(scheme + (seq![' '] + three_parts(p0, p1, p2)) =~= (scheme + seq![' '] + p0) + (seq![',']
        + (seq![' '] + p1)) + (seq![','] + (seq![' '] + p2)));
}

/// What a client signs is admitted: every listed header is there and carries no inner run
/// of white space, the date is the header's and near enough to `now`, and the body is the
/// one that the request names.
pub proof fn signed_requests_are_admitted(
    cfg: SigV4Config,
    r: RequestView,
    h: Seq<(Seq<char>, Seq<char>)>,
    names: Seq<Seq<char>>,
    amz_date: Seq<char>,
    region: Seq<char>,
    now: int,
)
    requires
        header(h, "authorization"@) is None,
        r.headers == h.push(
            (
                "authorization"@,
                signed_auth(cfg, r.method, r.path, r.query, h, names, amz_date, region),
            ),
        ),
        text::lacks(cfg.access_key@, '/'),
        text::lacks(cfg.access_key@, ','),
        text::lacks(region, '/'),
        text::lacks(region, ','),
        amz_date.len() >= 8,
        text::lacks(amz_date.take(8), '/'),
        text::lacks(amz_date.take(8), ','),
        header(h, "x-amz-date"@) == Some(amz_date),
        time_fault(amz_date, now, cfg.max_skew_secs as int) is None,
        content_sha_of(h) == "UNSIGNED-PAYLOAD"@ || text::lowered(content_sha_of(h))
            == text::lowered(r.body_sha),
        names.len() > 0,
        forall|i: int| 0 <= i < names.len() ==> is_plain_name(#[trigger] names[i]),
        forall|i: int|
            0 <= i < names.len() ==> {
                let v = header(h, text::lowered(#[trigger] names[i]));
                v is Some && collapsed(v->0) == text::trimmed(v->0)
            },
    ensures
        verdict(cfg, r, now) == Ok::<(), Seq<char>>(()),
{
    let c = client_claim(r.method, r.path, r.query, h, names, amz_date, region);
    let sig = expected_signature(cfg.secret_key@, c);
    let e = (
        "authorization"@,
        signed_auth(cfg, r.method, r.path, r.query, h, names, amz_date, region),
    );
    lemma_auth_reads_back(cfg.access_key@, amz_date.take(8), region, names, sig);
    lemma_header_behind(h, e, "authorization"@);
    lemma_header_behind(h, e, "x-amz-date"@);
    lemma_header_behind(h, e, "x-amz-content-sha256"@);
    reveal_strlit("authorization");
    reveal_strlit("x-amz-content-sha256");
    assert("authorization"@.len() != "x-amz-content-sha256"@.len());
    assert(amz_date.subrange(0, amz_date.take(8).len() as int) =~= amz_date.take(8));
    lemma_lines_agree(names, h, e);
    lemma_lowered_join(names);
    digest::hex_round_trip(sig);
    let got = examined(cfg, r, now)->Ok_0;
    assert(got.canonical_request == c.canonical_request);
}

/// The value of a header is that of the first one of its name.
pub proof fn headers_are_found(
    a: Seq<(Seq<char>, Seq<char>)>,
    name: Seq<char>,
    value: Seq<char>,
    b: Seq<(Seq<char>, Seq<char>)>,
)
    requires
        forall|i: int| 0 <= i < a.len() ==> (#[trigger] a[i]).0 != name,
    ensures
        header(a + seq![(name, value)] + b, name) == Some(value),
        header(a, name) is None,
    decreases a.len(),
{
    let h = a + seq![(name, value)] + b;
    if a.len() > 0 {
        let c = a.skip(1);
        assert forall|i: int| 0 <= i < c.len() implies (#[trigger] c[i]).0 != name by {
            assert(c[i] == a[i + 1]);
        }
        headers_are_found(c, name, value, b);
        assert(h.skip(1) =~= c + seq![(name, value)] + b);
        assert(h[0] == a[0]);
    } else {
        assert(h[0] == (name, value));
    }
}

/// A number in a fixed count of digits.
pub open spec fn padded(n: nat, width: nat) -> Seq<char> {
    let d = text::dec_chars(n);
    Seq::new((width - d.len()) as nat, |i: int| '0') + d
}

proof fn lemma_padded(n: nat, width: nat)
    requires
        text::dec_chars(n).len() <= width,
        n <= 9999,
    ensures
        padded(n, width).len() == width,
        text::parsed_int(padded(n, width), 9999) == Some(n as int),
{
    let d = text::dec_chars(n);
    let z = (width - d.len()) as nat;
    text::dec_round_trip(n);
    text::numbers_read_back(n, 9999);
    text::zeros_in_front(z, d, 9999);
    let p = padded(n, width);
    assert(p[0] != '-') by {
        if z == 0 {
            assert(p[0] == d[0]);
            assert(text::is_digit_char(d[0]));
        }
    }
}

/// A time is read to the second: the days of the calendar before it, and the hours, minutes
/// and seconds of its day.
pub proof fn times_are_read(
    y: nat,
    m: nat,
    d: nat,
    h: nat,
    mi: nat,
    sec: nat,
    s: &str,
    r: Option<i64>,
)
    requires
        y <= 9999,
        text::dec_chars(y).len() <= 4,
        1 <= m <= 12,
        1 <= d <= 31,
        h < 24,
        mi < 60,
        sec < 60,
        text::dec_chars(m).len() <= 2,
        text::dec_chars(d).len() <= 2,
        text::dec_chars(h).len() <= 2,
        text::dec_chars(mi).len() <= 2,
        text::dec_chars(sec).len() <= 2,
        s@ == padded(y, 4) + padded(m, 2) + padded(d, 2) + seq!['T'] + padded(h, 2) + padded(mi, 2)
            + padded(sec, 2) + seq!['Z'],
        call_ensures(parse_amz_date, (s,), r),
    ensures
        r matches Some(t) && t == days_from_civil(y as int, m as int, d as int) * 86400 + h * 3600
            + mi * 60 + sec,
{
    lemma_padded(y, 4);
    lemma_padded(m, 2);
    lemma_padded(d, 2);
    lemma_padded(h, 2);
    lemma_padded(mi, 2);
    lemma_padded(sec, 2);
    assert(s@.subrange(0, 4) =~= padded(y, 4));
    assert(s@.subrange(4, 6) =~= padded(m, 2));
    assert(s@.subrange(6, 8) =~= padded(d, 2));
    assert(s@.subrange(9, 11) =~= padded(h, 2));
    assert(s@.subrange(11, 13) =~= padded(mi, 2));
    assert(s@.subrange(13, 15) =~= padded(sec, 2));
}

/// A time too far from now is refused, before it or after it; with no limit set no time is.
pub proof fn skewed_requests_are_refused(cfg: SigV4Config, r: RequestView, date: Seq<char>, now: int)
    requires
        header(r.headers, "x-amz-date"@) == Some(date),
        cfg.max_skew_secs > 0,
    ensures
        amz_time(date) is None ==> verdict(cfg, r, now) is Err,
        amz_time(date) is Some && amz_time(date)->0 > now + cfg.max_skew_secs ==> verdict(
            cfg,
            r,
            now,
        ) is Err,
        amz_time(date) is Some && amz_time(date)->0 < now - cfg.max_skew_secs ==> verdict(
            cfg,
            r,
            now,
        ) is Err,
        amz_time(date) is Some && now - cfg.max_skew_secs <= amz_time(date)->0 <= now
            + cfg.max_skew_secs ==> time_fault(date, now, cfg.max_skew_secs as int) is None,
        time_fault(date, now, 0) is None,
{
}

/// A query is cut into its pairs, each at its first equals sign; all of them take part.
pub proof fn queries_are_cut(pairs: Seq<Pair>, q: Seq<char>)
    requires
        pairs.len() > 0,
        forall|i: int|
            0 <= i < pairs.len() ==> text::lacks((#[trigger] pairs[i]).0, '=') && text::lacks(
                pairs[i].0,
                '&',
            ) && text::lacks(pairs[i].1, '&'),
        q == text::joined(
            Seq::new(pairs.len(), |i: int| pairs[i].0 + seq!['='] + pairs[i].1),
            seq!['&'],
        ),
    ensures
        pairs_of(text::split_on(q, '&')) == pairs,
{
    let parts = Seq::new(pairs.len(), |i: int| pairs[i].0 + seq!['='] + pairs[i].1);
    assert forall|i: int| 0 <= i < parts.len() implies text::lacks(#[trigger] parts[i], '&') by {
        let p = pairs[i];
        assert(text::lacks(p.0, '&') && text::lacks(p.1, '&'));
        assert forall|j: int| 0 <= j < parts[i].len() implies #[trigger] parts[i][j] != '&' by {
            if j < p.0.len() {
                assert(parts[i][j] == p.0[j]);
            } else if j > p.0.len() {
                assert(parts[i][j] == p.1[j - p.0.len() - 1]);
            }
        }
    }
    text::pieces_split_back(parts, '&');
    lemma_pairs_of(pairs, parts);
}

proof fn lemma_pairs_of(pairs: Seq<Pair>, parts: Seq<Seq<char>>)
    requires
        parts.len() == pairs.len(),
        forall|i: int|
            0 <= i < pairs.len() ==> text::lacks((#[trigger] pairs[i]).0, '=') && parts[i]
                == pairs[i].0 + seq!['='] + pairs[i].1,
    ensures
        pairs_of(parts) == pairs,
    decreases parts.len(),
{
    if parts.len() > 0 {
        let n = parts.len() - 1;
        let a = pairs.drop_last();
        let b = parts.drop_last();
        assert forall|i: int| 0 <= i < a.len() implies text::lacks((#[trigger] a[i]).0, '=')
            && b[i] == a[i].0 + seq!['='] + a[i].1 by {
            assert(a[i] == pairs[i] && b[i] == parts[i]);
        }
        lemma_pairs_of(a, b);
        assert(text::lacks(pairs[n].0, '='));
        text::texts_are_cut_once(pairs[n].0, '=', pairs[n].1);
        assert(parts.last() == parts[n]);
        assert(pair_of(parts.last()) == pairs[n]);
        assert(a.push(pairs[n]) =~= pairs);
    } else {
        assert(pairs =~= Seq::empty());
    }
}

/// What is signed says every part of the request: the method, the path, the query, the signed
/// headers and their names, and the digest of the body, each on lines of its own.
pub proof fn signed_text_says_everything(
    method: Seq<char>,
    path: Seq<char>,
    query: Seq<char>,
    headers: Seq<char>,
    names: Seq<char>,
    sha: Seq<char>,
)
    ensures
        canonical_request_of(method, path, query, headers, names, sha) == text::joined(
            seq![method, path, query, headers, names, sha],
            seq!['\n'],
        ),
{
    reveal_strlit("\n");
    reveal_with_fuel(text::joined, 7);
    let s = seq![method, path, query, headers, names, sha];
    let nl = seq!['\n'];
    assert("\n"@ =~= nl);
    let s5 = s.drop_last();
    let s4 = s5.drop_last();
    let s3 = s4.drop_last();
    let s2 = s3.drop_last();
    let s1 = s2.drop_last();
    assert(s1.len() == 1 && s1[0] == method);
    assert(s2.last() == path && s3.last() == query && s4.last() == headers && s5.last() == names
        && s.last() == sha);
}

/// The lines of the signed headers come in the order of the names, one for each, with the
/// value of the request.
pub proof fn signed_headers_have_lines(
    names: Seq<Seq<char>>,
    name: Seq<char>,
    h: Seq<(Seq<char>, Seq<char>)>,
    value: Seq<char>,
)
    requires
        canonical_headers_of(names, h) is Ok,
        header(h, name) == Some(value),
    ensures
        canonical_headers_of(names.push(name), h) == Ok::<Seq<char>, Seq<char>>(
            canonical_headers_of(names, h)->Ok_0 + name + ":"@ + collapsed(value) + "\n"@,
        ),
{
    assert(names.push(name).drop_last() =~= names);
    let a = canonical_headers_of(names, h)->Ok_0;
    let c = collapsed(value);
    assert(a + (name + ":"@ + c + "\n"@) =~= a + name + ":"@ + c + "\n"@);
}

/// A part of an `Authorization` header is found by its label wherever it stands, whatever
/// white space is around it; the last one of a label counts.
pub proof fn parts_are_found_anywhere(
    parts: Seq<Seq<char>>,
    label: Seq<char>,
    i: int,
    value: Seq<char>,
)
    requires
        0 <= i < parts.len(),
        text::trimmed(parts[i]) == label + value,
        forall|j: int|
            i < j < parts.len() ==> !bytes::has_prefix(text::trimmed(#[trigger] parts[j]), label),
    ensures
        field(parts, label) == Some(value),
    decreases parts.len(),
{
    let p = parts.drop_last();
    if i == parts.len() - 1 {
        let t = label + value;
        assert(t.subrange(0, label.len() as int) =~= label);
        assert(t.skip(label.len() as int) =~= value);
    } else {
        assert(!bytes::has_prefix(text::trimmed(parts[parts.len() - 1]), label));
        assert forall|j: int| i < j < p.len() implies !bytes::has_prefix(
            text::trimmed(#[trigger] p[j]),
            label,
        ) by {
            assert(p[j] == parts[j]);
        }
        assert(p[i] == parts[i]);
        parts_are_found_anywhere(p, label, i, value);
    }
}

/// A label that no part opens with is not found.
pub proof fn missing_parts_are_noticed(parts: Seq<Seq<char>>, label: Seq<char>)
    requires
        forall|j: int|
            0 <= j < parts.len() ==> !bytes::has_prefix(text::trimmed(#[trigger] parts[j]), label),
    ensures
        field(parts, label) is None,
    decreases parts.len(),
{
    if parts.len() > 0 {
        let p = parts.drop_last();
        assert forall|j: int| 0 <= j < p.len() implies !bytes::has_prefix(
            text::trimmed(#[trigger] p[j]),
            label,
        ) by {
            assert(p[j] == parts[j]);
        }
        assert(!bytes::has_prefix(text::trimmed(parts[parts.len() - 1]), label));
        missing_parts_are_noticed(p, label);
    }
}

/// An `Authorization` header that names a credential of five fields, the signed headers and
/// the signature is read field by field; one that lacks a part, or names another scheme, is
/// refused.
pub proof fn authorizations_are_read(
    v: &str,
    rest: Seq<char>,
    credential: Seq<Seq<char>>,
    names: Seq<Seq<char>>,
    sig: Seq<char>,
    r: Result<AuthHeader, String>,
)
    requires
        call_ensures(parse_auth_header, (v,), r),
        v@ == "AWS4-HMAC-SHA256"@ + rest,
        credential.len() > 0,
        names.len() > 0,
        forall|i: int| 0 <= i < credential.len() ==> text::lacks(#[trigger] credential[i], '/'),
        forall|i: int| 0 <= i < names.len() ==> text::lacks(#[trigger] names[i], ';'),
    ensures
        ({
            let parts = text::split_on(text::trimmed(rest), ',');
            let c = field(parts, "Credential="@);
            let n = field(parts, "SignedHeaders="@);
            let s = field(parts, "Signature="@);
            let whole = c == Some(text::joined(credential, seq!['/'])) && n == Some(
                text::joined(names, seq![';']),
            ) && s == Some(sig);
            &&& whole && credential.len() == 5 && credential[4] == "aws4_request"@ ==> {
                &&& r is Ok
                &&& (r->Ok_0)@.access_key == credential[0]
                &&& (r->Ok_0)@.date == credential[1]
                &&& (r->Ok_0)@.region == credential[2]
                &&& (r->Ok_0)@.service == credential[3]
                &&& (r->Ok_0)@.signed_headers.len() == names.len()
                &&& forall|i: int|
                    0 <= i < names.len() ==> #[trigger] (r->Ok_0)@.signed_headers[i]
                        == text::lowered(names[i])
                &&& (r->Ok_0)@.signature_hex == sig
            }
            &&& whole && (credential.len() != 5 || credential[4] != "aws4_request"@) ==> r is Err
            &&& c is None || n is None || s is None ==> r is Err
        }),
{
    let p = "AWS4-HMAC-SHA256"@;
    assert(v@.subrange(0, p.len() as int) =~= p);
    assert(v@.skip(p.len() as int) =~= rest);
    text::pieces_split_back(credential, '/');
    text::pieces_split_back(names, ';');
}

/// A header that does not open with the scheme's name is refused.
pub proof fn other_schemes_are_refused(v: &str, r: Result<AuthHeader, String>)
    requires
        call_ensures(parse_auth_header, (v,), r),
        !bytes::has_prefix(v@, "AWS4-HMAC-SHA256"@),
    ensures
        r is Err,
{
}

/// The text that is signed names the scheme, the time, the scope and the digest of the
/// request, each on its own line; the header that carries a signature names the key, the
/// scope, the signed headers and the signature.
pub proof fn signatures_are_spelled_out(
    amz_date: &str,
    scope: &str,
    digest: &[u8],
    text: String,
    access_key: &str,
    names: &str,
    signature: &[u8],
    header: String,
)
    requires
        call_ensures(string_to_sign, (amz_date, scope, digest), text),
        call_ensures(authorization, (access_key, scope, names, signature), header),
    ensures
        text@ == text::joined(
            seq!["AWS4-HMAC-SHA256"@, amz_date@, scope@, digest::hex_of(digest@)],
            seq!['\n'],
        ),
        header@ == "AWS4-HMAC-SHA256 "@ + text::joined(
            seq![
                "Credential="@ + access_key@ + "/"@ + scope@,
                "SignedHeaders="@ + names@,
                "Signature="@ + digest::hex_of(signature@),
            ],
            seq![',', ' '],
        ),
{
    reveal_strlit("\n");
    reveal_strlit("AWS4-HMAC-SHA256");
    reveal_strlit("AWS4-HMAC-SHA256\n");
    reveal_strlit("AWS4-HMAC-SHA256 ");
    reveal_strlit("AWS4-HMAC-SHA256 Credential=");
    reveal_strlit("Credential=");
    reveal_strlit("SignedHeaders=");
    reveal_strlit(", SignedHeaders=");
    reveal_strlit("Signature=");
    reveal_strlit(", Signature=");
    reveal_with_fuel(text::joined, 5);
    let nl = seq!['\n'];
    let h = digest::hex_of(digest@);
    let s = seq!["AWS4-HMAC-SHA256"@, amz_date@, scope@, h];
    let s3 = s.drop_last();
    let s2 = s3.drop_last();
    let s1 = s2.drop_last();
    assert(s1.len() == 1 && s1[0] == "AWS4-HMAC-SHA256"@);
    assert(s2.last() == amz_date@ && s3.last() == scope@ && s.last() == h);
    assert("\n"@ =~= nl);
    assert("AWS4-HMAC-SHA256\n"@ =~= "AWS4-HMAC-SHA256"@ + nl);
    lemma_four_lines("AWS4-HMAC-SHA256"@, nl, amz_date@, scope@, h);
    let g = digest::hex_of(signature@);
    let gap = seq![',', ' '];
    let c = "Credential="@ + access_key@ + "/"@ + scope@;
    let n = "SignedHeaders="@ + names@;
    let z = "Signature="@ + g;
    let q = seq![c, n, z];
    let q2 = q.drop_last();
    let q1 = q2.drop_last();
    assert(q1.len() == 1 && q1[0] == c && q2.last() == n && q.last() == z);
    assert(", SignedHeaders="@ =~= gap + "SignedHeaders="@);
    assert(", Signature="@ =~= gap + "Signature="@);
    assert("AWS4-HMAC-SHA256 Credential="@ =~= "AWS4-HMAC-SHA256 "@ + "Credential="@);
    lemma_header_parts(
        "AWS4-HMAC-SHA256 "@,
        "Credential="@,
        access_key@,
        "/"@,
        scope@,
        gap,
        "SignedHeaders="@,
        names@,
        "Signature="@,
        g,
    );
}

proof fn lemma_four_lines(
    a: Seq<char>,
    nl: Seq<char>,
    b: Seq<char>,
    c: Seq<char>,
    d: Seq<char>,
)
    ensures
        (a + nl) + b + nl + c + nl + d == a + nl + b + nl + c + nl + d,
{
}

proof fn lemma_header_parts(
    a: Seq<char>,
    l: Seq<char>,
    k: Seq<char>,
    sl: Seq<char>,
    s: Seq<char>,
    gap: Seq<char>,
    m: Seq<char>,
    n: Seq<char>,
    o: Seq<char>,
    g: Seq<char>,
)
    ensures
        (a + l) + k + sl + s + (gap + m) + n + (gap + o) + g == a + ((l + k + sl + s) + gap + (m
            + n) + gap + (o + g)),
{
    let x = (a + l) + k + sl + s;
    let y = l + k + sl + s;
    assert(x =~= a + y);
    assert(x + (gap + m) + n =~= x + gap + (m + n));
    let z = x + gap + (m + n);
    assert(z + (gap + o) + g =~= z + gap + (o + g));
    assert((a + y) + gap + (m + n) + gap + (o + g) =~= a + (y + gap + (m + n) + gap + (o + g)));
}

/// The signature that is expected is made with a key that the secret, the day, the region and
/// the service give in turn.
pub proof fn keys_are_made_in_turn(secret: Seq<char>, c: ClaimView)
    ensures
        ({
            let day = digest::hmac_of(
                vstd::utf8::encode_utf8(seq!['A', 'W', 'S', '4'] + secret),
                vstd::utf8::encode_utf8(c.date),
            );
            let zone = digest::hmac_of(day, vstd::utf8::encode_utf8(c.region));
            let desk = digest::hmac_of(zone, vstd::utf8::encode_utf8(c.service));
            let key = digest::hmac_of(desk, vstd::utf8::encode_utf8("aws4_request"@));
            let scope = text::joined(
                seq![c.date, c.region, c.service, "aws4_request"@],
                seq!['/'],
            );
            expected_signature(secret, c) == digest::hmac_of(
                key,
                vstd::utf8::encode_utf8(
                    to_sign(
                        c.amz_date,
                        scope,
                        digest::sha256_of(vstd::utf8::encode_utf8(c.canonical_request)),
                    ),
                ),
            )
        }),
{
    reveal_strlit("AWS4");
    reveal_strlit("/");
    reveal_strlit("aws4_request");
    reveal_strlit("/aws4_request");
    reveal_with_fuel(text::joined, 5);
    assert("AWS4"@ =~= seq!['A', 'W', 'S', '4']);
    let sl = seq!['/'];
    assert("/"@ =~= sl);
    assert("/aws4_request"@ =~= sl + "aws4_request"@);
    let s = seq![c.date, c.region, c.service, "aws4_request"@];
    let s3 = s.drop_last();
    let s2 = s3.drop_last();
    let s1 = s2.drop_last();
    assert(s1.len() == 1 && s1[0] == c.date);
    assert(s2.last() == c.region && s3.last() == c.service && s.last() == "aws4_request"@);
    let x = c.date + sl + c.region + sl + c.service;
    assert(x + (sl + "aws4_request"@) =~= x + sl + "aws4_request"@);
}

} // verus!
