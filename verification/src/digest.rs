//! SHA-256, HMAC-SHA-256 and hexadecimal text.
use vstd::prelude::*;
use hmac::Mac;
use sha2::Digest;

verus! {

/// The SHA-256 digest of a byte sequence.
pub uninterp spec fn sha256_digest(data: Seq<u8>) -> [u8; 32];

/// The bytes of a SHA-256 digest.
pub open spec fn sha256_of(data: Seq<u8>) -> Seq<u8> {
    sha256_digest(data)@
}

/// `sha2::Sha256::digest`: 32 bytes.
#[verifier::external_body]
pub(crate) fn sha256_bytes(data: &[u8]) -> (r: Vec<u8>)
    ensures
        r@ == sha256_digest(data@)@,
{
    sha2::Sha256::digest(data).to_vec()
}

/// The HMAC-SHA-256 of a message under a key.
pub uninterp spec fn hmac_of(key: Seq<u8>, data: Seq<u8>) -> Seq<u8>;

/// `hmac::Hmac::<Sha256>`: created from a key of any length, fed the message and
/// finalized; 32 bytes.
#[verifier::external_body]
pub(crate) fn hmac(key: &[u8], data: &[u8]) -> (r: Vec<u8>)
    ensures
        r@ == hmac_of(key@, data@),
        r@.len() == 32,
{
    let mut mac = hmac::Hmac::<sha2::Sha256>::new_from_slice(key).expect("any key length");
    mac.update(data);
    mac.finalize().into_bytes().to_vec()
}

/// `Mac::verify_slice` of `hmac::Hmac::<Sha256>`: whether the tag is the
/// message's HMAC, compared in constant time.
#[verifier::external_body]
pub(crate) fn hmac_verify(key: &[u8], data: &[u8], tag: &[u8]) -> (r: bool)
    ensures
        r == (tag@ == hmac_of(key@, data@)),
{
    let mut mac = hmac::Hmac::<sha2::Sha256>::new_from_slice(key).expect("any key length");
    mac.update(data);
    mac.verify_slice(tag).is_ok()
}

/// The digest of a body.
pub fn sha256(data: &[u8]) -> (r: Vec<u8>)
    ensures
        r@ == sha256_of(data@),
        r@.len() == 32,
{
    sha256_bytes(data)
}

/// The lower-case hexadecimal digit of a value below sixteen.
pub open spec fn hex_digit(d: nat) -> char {
    if d < 10 {
        (48 + d) as char
    } else {
        (87 + d) as char
    }
}

/// Two lower-case hexadecimal digits per byte.
pub open spec fn hex_of(b: Seq<u8>) -> Seq<char>
    decreases b.len(),
{
    if b.len() == 0 {
        Seq::empty()
    } else {
        hex_of(b.drop_last()).push(hex_digit(b.last() as nat / 16)).push(
            hex_digit(b.last() as nat % 16),
        )
    }
}

pub(crate) fn hex_char(d: u8) -> (c: char)
    requires
        d < 16,
    ensures
        c == hex_digit(d as nat),
{
    if d < 10 {
        (48u8 + d) as char
    } else {
        (87u8 + d) as char
    }
}

/// Bytes as lower-case hexadecimal text.
pub fn hex(b: &[u8]) -> (r: String)
    ensures
        r@ == hex_of(b@),
{
    let mut s = String::new();
    let mut i: usize = 0;
    while i < b.len()
        invariant
            i <= b@.len(),
            s@ == hex_of(b@.take(i as int)),
        decreases b@.len() - i,
    {
        assert(b@.take(i + 1).drop_last() =~= b@.take(i as int));
        s.push(hex_char(b[i] / 16));
        s.push(hex_char(b[i] % 16));
        i = i + 1;
    }
    assert(b@.take(b@.len() as int) =~= b@);
    s
}

/// A 32-byte value as lower-case hexadecimal text.
pub fn hex32(b: &[u8; 32]) -> (r: String)
    ensures
        r@ == hex_of(b@),
{
    hex(b.as_slice())
}

/// The value of a hexadecimal digit of either case.
pub open spec fn unhex_digit(c: char) -> Option<nat> {
    if '0' <= c <= '9' {
        Some((c as int - 48) as nat)
    } else if 'a' <= c <= 'f' {
        Some((c as int - 87) as nat)
    } else if 'A' <= c <= 'F' {
        Some((c as int - 55) as nat)
    } else {
        None
    }
}

/// The byte that two characters spell: two digits, or a plus sign and one
/// digit.
pub open spec fn unhex_pair(a: char, b: char) -> Option<nat> {
    if a == '+' {
        unhex_digit(b)
    } else {
        match (unhex_digit(a), unhex_digit(b)) {
            (Some(x), Some(y)) => Some(16 * x + y),
            _ => None,
        }
    }
}

/// The bytes that hexadecimal text spells; none unless every pair is valid.
pub open spec fn unhex_of(s: Seq<char>) -> Option<Seq<u8>>
    decreases s.len(),
{
    if s.len() == 0 {
        Some(Seq::empty())
    } else if s.len() == 1 {
        None
    } else {
        match (
            unhex_of(s.take(s.len() - 2)),
            unhex_pair(s[s.len() - 2], s[s.len() - 1]),
        ) {
            (Some(rest), Some(v)) => Some(rest.push(v as u8)),
            _ => None,
        }
    }
}

fn unhex(c: char) -> (r: Option<u8>)
    ensures
        match r {
            Some(v) => unhex_digit(c) == Some(v as nat) && v < 16,
            None => unhex_digit(c) is None,
        },
{
    if c >= '0' && c <= '9' {
        Some((c as u32 - 48) as u8)
    } else if c >= 'a' && c <= 'f' {
        Some((c as u32 - 87) as u8)
    } else if c >= 'A' && c <= 'F' {
        Some((c as u32 - 55) as u8)
    } else {
        None
    }
}

fn unhex2(a: char, b: char) -> (r: Option<u8>)
    ensures
        match r {
            Some(v) => unhex_pair(a, b) == Some(v as nat),
            None => unhex_pair(a, b) is None,
        },
{
    let low: u8 = match unhex(b) {
        Some(v) => v,
        None => {
            return None;
        },
    };
    if a == '+' {
        return Some(low);
    }
    match unhex(a) {
        Some(v) => Some(16 * v + low),
        None => None,
    }
}

proof fn lemma_unhex_prefix(s: Seq<char>, n: int)
    requires
        0 <= n <= s.len(),
        n % 2 == s.len() as int % 2,
        unhex_of(s.take(n)) is None,
    ensures
        unhex_of(s) is None,
    decreases s.len() - n,
{
    if n == s.len() {
        assert(s.take(n) =~= s);
    } else {
        let t = s.take(n + 2);
        assert(t.take(t.len() - 2) =~= s.take(n));
        lemma_unhex_prefix(s, n + 2);
    }
}

/// The bytes that hexadecimal text spells.
pub fn hex_decode(s: &str) -> (r: Option<Vec<u8>>)
    ensures
        match r {
            Some(v) => unhex_of(s@) == Some(v@),
            None => unhex_of(s@) is None,
        },
{
    let c = crate::text::chars(s);
    let n: usize = c.len();
    if n % 2 != 0 {
        proof {
            lemma_unhex_odd(s@);
        }
        return None;
    }
    let mut out: Vec<u8> = Vec::new();
    let mut i: usize = 0;
    while i < n
        invariant
            n == c@.len(),
            c@ == s@,
            n % 2 == 0,
            i % 2 == 0,
            i <= n,
            unhex_of(c@.take(i as int)) == Some(out@),
        decreases n - i,
    {
        proof {
            let t = c@.take(i + 2);
            assert(t.take(t.len() - 2) =~= c@.take(i as int));
        }
        match unhex2(c[i], c[i + 1]) {
            Some(v) => {
                out.push(v);
            },
            None => {
                proof {
                    lemma_unhex_prefix(c@, i + 2);
                }
                return None;
            },
        }
        i = i + 2;
    }
    assert(c@.take(n as int) =~= c@);
    Some(out)
}

proof fn lemma_unhex_odd(s: Seq<char>)
    requires
        s.len() as int % 2 == 1,
    ensures
        unhex_of(s) is None,
    decreases s.len(),
{
    if s.len() > 1 {
        lemma_unhex_odd(s.take(s.len() - 2));
    }
}

/// Hexadecimal text reads back as the bytes it was made of.
pub proof fn hex_round_trip(b: Seq<u8>)
    ensures
        hex_of(b).len() == 2 * b.len(),
        unhex_of(hex_of(b)) == Some(b),
    decreases b.len(),
{
    if b.len() > 0 {
        let p = b.drop_last();
        hex_round_trip(p);
        let h = hex_of(b);
        assert(h.take(h.len() - 2) =~= hex_of(p));
        let x = b.last() as nat;
        assert(x / 16 < 16 && x % 16 < 16 && 16 * (x / 16) + x % 16 == x);
        assert(unhex_digit(hex_digit(x / 16)) == Some(x / 16));
        assert(unhex_digit(hex_digit(x % 16)) == Some(x % 16));
        assert(p.push(b.last()) =~= b);
    } else {
        assert(hex_of(b) =~= Seq::empty());
        assert(b =~= Seq::empty());
    }
}

/// Every byte is written as its two digits, the high one first, in lower case.
pub proof fn bytes_are_two_digits(b: Seq<u8>, i: int)
    requires
        0 <= i < b.len(),
    ensures
        hex_of(b).len() == 2 * b.len(),
        ({
            let (x, y) = (hex_of(b)[2 * i], hex_of(b)[2 * i + 1]);
            &&& '0' <= x <= '9' || 'a' <= x <= 'f'
            &&& '0' <= y <= '9' || 'a' <= y <= 'f'
            &&& b[i] < 16 * 10 ==> x as nat == 48 + b[i] / 16
            &&& b[i] >= 16 * 10 ==> x as nat == 87 + b[i] / 16
            &&& b[i] % 16 < 10 ==> y as nat == 48 + b[i] % 16
            &&& b[i] % 16 >= 10 ==> y as nat == 87 + b[i] % 16
        }),
    decreases b.len(),
{
    hex_round_trip(b);
    let p = b.drop_last();
    hex_round_trip(p);
    if i < p.len() {
        bytes_are_two_digits(p, i);
        assert(hex_of(b)[2 * i] == hex_of(p)[2 * i]);
        assert(hex_of(b)[2 * i + 1] == hex_of(p)[2 * i + 1]);
    }
}

/// The number of a hexadecimal digit, of either case.
pub open spec fn digit_number(c: char) -> nat {
    if c <= '9' {
        (c as int - '0' as int) as nat
    } else if c <= 'F' {
        (c as int - 'A' as int + 10) as nat
    } else {
        (c as int - 'a' as int + 10) as nat
    }
}

/// Text of hexadecimal digits in pairs, in either case, is read byte by byte; text of an odd
/// length is not read.
pub proof fn digits_are_read_in_pairs(s: &str, r: Option<Vec<u8>>, i: int)
    requires
        call_ensures(hex_decode, (s,), r),
        forall|j: int|
            0 <= j < s@.len() ==> '0' <= #[trigger] s@[j] <= '9' || 'a' <= s@[j] <= 'f' || 'A'
                <= s@[j] <= 'F',
        0 <= i,
        2 * i + 1 < s@.len(),
    ensures
        s@.len() % 2 == 1 ==> r is None,
        s@.len() % 2 == 0 ==> (r matches Some(b) && b@.len() == s@.len() / 2 && b@[i] as nat == 16
            * digit_number(s@[2 * i]) + digit_number(s@[2 * i + 1])),
{
    if s@.len() % 2 == 1 {
        lemma_unhex_odd(s@);
    } else {
        lemma_unhex_all(s@, i);
    }
}

proof fn lemma_unhex_all(s: Seq<char>, i: int)
    requires
        s.len() % 2 == 0,
        forall|j: int|
            0 <= j < s.len() ==> '0' <= #[trigger] s[j] <= '9' || 'a' <= s[j] <= 'f' || 'A' <= s[j]
                <= 'F',
    ensures
        unhex_of(s) is Some,
        unhex_of(s)->0.len() == s.len() / 2,
        0 <= i && 2 * i + 1 < s.len() ==> unhex_of(s)->0[i] as nat == 16 * digit_number(s[2 * i])
            + digit_number(s[2 * i + 1]),
    decreases s.len(),
{
    if s.len() > 0 {
        let t = s.take(s.len() - 2);
        assert forall|j: int| 0 <= j < t.len() implies '0' <= #[trigger] t[j] <= '9' || 'a' <= t[j]
            <= 'f' || 'A' <= t[j] <= 'F' by {
            assert(t[j] == s[j]);
        }
        lemma_unhex_all(t, i);
        let (x, y) = (s[s.len() - 2], s[s.len() - 1]);
        assert(unhex_digit(x) == Some(digit_number(x)) && unhex_digit(y) == Some(digit_number(y)));
        assert(digit_number(x) < 16 && digit_number(y) < 16);
        if 0 <= i && 2 * i + 1 < t.len() {
            assert(t[2 * i] == s[2 * i] && t[2 * i + 1] == s[2 * i + 1]);
        }
    }
}

} // verus!
