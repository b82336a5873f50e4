//! Import and export of CARv1 archives.
//!
//! An archive is a sequence of frames, each preceded by its length as a varint:
//! a header, then one frame per block, made of the block's CID and its body.
//! Blocks are kept under the upper-case base32 form of their multihash.
use vstd::prelude::*;
use vstd::string::*;
use vstd::arithmetic::power2::*;
use crate::bytes;
use crate::digest::sha256_bytes;
use crate::digest;
use crate::domain::{BlockKey, DomainError, DomainResult};
use crate::domain;
use crate::text;

verus! {

/// The base32 digit of a value below 32: `A` to `Z`, then `2` to `7`.
pub open spec fn b32_digit(d: nat) -> u8 {
    if d < 26 {
        (65 + d) as u8
    } else {
        (24 + d) as u8
    }
}

/// The value of a base32 digit.
pub open spec fn b32_value_of(c: u8) -> Option<nat> {
    if 65 <= c <= 90 {
        Some((c - 65) as nat)
    } else if 50 <= c <= 55 {
        Some((c - 24) as nat)
    } else {
        None
    }
}

/// The `n` low base32 digits of `x`, most significant first.
pub open spec fn b32_digits(x: nat, n: nat) -> Seq<u8>
    decreases n,
{
    if n == 0 {
        Seq::empty()
    } else {
        b32_digits(x / 32, (n - 1) as nat).push(b32_digit(x % 32))
    }
}

/// The number that base32 digits spell.
pub open spec fn b32_number(s: Seq<u8>) -> nat
    decreases s.len(),
{
    if s.len() == 0 {
        0
    } else {
        b32_number(s.drop_last()) * 32 + b32_value_of(s.last()).unwrap_or(0)
    }
}

/// Whether all bytes are base32 digits.
pub open spec fn all_b32(s: Seq<u8>) -> bool {
    forall|i: int| 0 <= i < s.len() ==> b32_value_of(#[trigger] s[i]) is Some
}

/// Digits needed for `n` bytes.
pub open spec fn b32_len(n: nat) -> nat {
    ((8 * n + 4) / 5) as nat
}

/// Base32 without padding: the bytes as one number, filled up with zero bits to
/// a whole number of digits.
pub open spec fn b32_encoded(data: Seq<u8>) -> Seq<u8> {
    let n = b32_len(data.len());
    b32_digits(bytes::be_value(data) * pow2((5 * n - 8 * data.len()) as nat), n)
}

/// The bytes that base32 digits spell; bits beyond the last whole byte are
/// dropped.
pub open spec fn b32_decoded(s: Seq<u8>) -> Option<Seq<u8>> {
    if all_b32(s) {
        let n = (5 * s.len()) / 8;
        Some(bytes::be_bytes(b32_number(s) / pow2((5 * s.len() - 8 * n) as nat), n as nat))
    } else {
        None
    }
}

proof fn lemma_small_pow2()
    ensures
        pow2(0) == 1,
        pow2(1) == 2,
        pow2(2) == 4,
        pow2(3) == 8,
        pow2(4) == 16,
        pow2(5) == 32,
        pow2(6) == 64,
        pow2(7) == 128,
        pow2(8) == 256,
{
    lemma2_to64();
}

proof fn lemma_b32_push(x: nat, n: nat, d: nat)
    requires
        d < 32,
    ensures
        b32_digits(x * 32 + d, n + 1) == b32_digits(x, n).push(b32_digit(d)),
{
    assert((x * 32 + d) / 32 == x);
    assert((x * 32 + d) % 32 == d);
}

fn b32_byte(d: u8) -> (c: u8)
    requires
        d < 32,
    ensures
        c == b32_digit(d as nat),
{
    if d < 26 {
        65 + d
    } else {
        24 + d
    }
}

/// Two raised to a small power.
fn two_to(n: u32) -> (r: u32)
    requires
        n <= 12,
    ensures
        r == pow2(n as nat),
        1 <= r <= 4096,
{
    proof {
        lemma2_to64();
    }
    if n == 0 {
        1
    } else if n == 1 {
        2
    } else if n == 2 {
        4
    } else if n == 3 {
        8
    } else if n == 4 {
        16
    } else if n == 5 {
        32
    } else if n == 6 {
        64
    } else if n == 7 {
        128
    } else if n == 8 {
        256
    } else if n == 9 {
        512
    } else if n == 10 {
        1024
    } else if n == 11 {
        2048
    } else {
        4096
    }
}

/// One digit leaves the accumulator: `v` digits are out, `acc` holds the `bits`
/// bits that follow.
proof fn lemma_take_digit(v: nat, acc: nat, bits: nat)
    requires
        bits >= 5,
        acc < pow2(bits),
    ensures
        ({
            let p = pow2((bits - 5) as nat);
            &&& acc / p < 32
            &&& acc % p < p
            &&& v * pow2(bits) + acc == (v * 32 + acc / p) * p + acc % p
        }),
{
    let p = pow2((bits - 5) as nat);
    lemma_pow2_pos((bits - 5) as nat);
    lemma_pow2_adds((bits - 5) as nat, 5);
    lemma_small_pow2();
    assert(pow2(bits) == p * 32);
    assert(acc == p * (acc / p) + acc % p && acc % p < p) by (nonlinear_arith)
        requires
            p > 0,
    ;
    assert(acc / p < 32) by (nonlinear_arith)
        requires
            acc < p * 32,
            p > 0,
    ;
    let q = acc / p;
    let m = acc % p;
    assert(v * (p * 32) + (p * q + m) == (v * 32 + q) * p + m) by (nonlinear_arith);
}

/// The base32 digits of a byte string.
pub fn base32_bytes(data: &[u8]) -> (r: Vec<u8>)
    ensures
        r@ == b32_encoded(data@),
{
    let mut out: Vec<u8> = Vec::new();
    let mut acc: u32 = 0;
    let mut bits: u32 = 0;
    let ghost mut v: nat = 0;
    let mut i: usize = 0;
    proof {
        lemma_small_pow2();
    }
    while i < data.len()
        invariant
            i <= data@.len(),
            bits < 5,
            acc < pow2(bits as nat),
            acc < 32,
            5 * out@.len() + bits == 8 * i,
            out@ == b32_digits(v, out@.len()),
            v * pow2(bits as nat) + acc == bytes::be_value(data@.take(i as int)),
        decreases data@.len() - i,
    {
        let b: u8 = data[i];
        let ghost before = bytes::be_value(data@.take(i as int));
        proof {
            assert(data@.take(i + 1).drop_last() =~= data@.take(i as int));
            lemma_small_pow2();
            lemma_pow2_adds(bits as nat, 8);
            let p = pow2(bits as nat);
            assert(pow2((bits + 8) as nat) == p * 256);
            assert((v * p + acc) * 256 + b == v * (p * 256) + (acc * 256 + b)) by (nonlinear_arith);
            assert(acc * 256 + b < p * 256) by (nonlinear_arith)
                requires
                    acc + 1 <= p,
                    b < 256,
            ;
        }
        acc = acc * 256 + b as u32;
        bits = bits + 8;
        while bits >= 5
            invariant
                bits <= 12,
                acc < pow2(bits as nat),
                acc < 0x2000,
                5 * out@.len() + bits == 8 * (i + 1),
                out@ == b32_digits(v, out@.len()),
                v * pow2(bits as nat) + acc == before * 256 + b,
            decreases bits,
        {
            proof {
                lemma_take_digit(v, acc as nat, bits as nat);
                lemma_b32_push(v, out@.len(), acc as nat / pow2((bits - 5) as nat));
            }
            bits = bits - 5;
            let p: u32 = two_to(bits);
            let d: u8 = (acc / p) as u8;
            out.push(b32_byte(d));
            proof {
                v = v * 32 + d as nat;
            }
            acc = acc % p;
        }
        proof {
            lemma_small_pow2();
        }
        i = i + 1;
    }
    let ghost n = data@.len();
    assert(data@.take(n as int) =~= data@);
    if bits > 0 {
        let p: u32 = two_to(5 - bits);
        proof {
            lemma_small_pow2();
            let a = pow2(bits as nat);
            let q = pow2((5 - bits) as nat);
            lemma_pow2_adds(bits as nat, (5 - bits) as nat);
            assert(acc * q < a * q) by (nonlinear_arith)
                requires
                    acc < a,
                    q >= 1,
            ;
            assert((v * a + acc) * q == v * (a * q) + acc * q) by (nonlinear_arith);
            lemma_b32_push(v, out@.len(), (acc * p) as nat);
        }
        let d: u8 = (acc * p) as u8;
        out.push(b32_byte(d));
        assert(out@.len() == b32_len(n));
    } else {
        assert(out@.len() == b32_len(n));
        assert(v * 1 + acc == v);
        assert(bytes::be_value(data@) * 1 == bytes::be_value(data@));
    }
    out
}

/// Upper-case base32 text without padding.
pub fn base32_nopad(data: &[u8]) -> (r: String)
    ensures
        r@ == Seq::new(b32_encoded(data@).len(), |i: int| b32_encoded(data@)[i] as char),
{
    let b = base32_bytes(data);
    let mut s = String::new();
    let mut i: usize = 0;
    while i < b.len()
        invariant
            i <= b@.len(),
            b@ == b32_encoded(data@),
            s@ =~= Seq::new(i as nat, |j: int| b32_encoded(data@)[j] as char),
        decreases b@.len() - i,
    {
        s.push(b[i] as char);
        i = i + 1;
    }
    s
}

/// One byte leaves the accumulator.
proof fn lemma_take_byte(v: nat, acc: nat, bits: nat)
    requires
        bits >= 8,
        acc < pow2(bits),
    ensures
        ({
            let p = pow2((bits - 8) as nat);
            &&& acc / p < 256
            &&& acc % p < p
            &&& v * pow2(bits) + acc == (v * 256 + acc / p) * p + acc % p
        }),
{
    let p = pow2((bits - 8) as nat);
    lemma_pow2_pos((bits - 8) as nat);
    lemma_pow2_adds((bits - 8) as nat, 8);
    lemma_small_pow2();
    assert(acc == p * (acc / p) + acc % p && acc % p < p) by (nonlinear_arith)
        requires
            p > 0,
    ;
    assert(acc / p < 256) by (nonlinear_arith)
        requires
            acc < p * 256,
            p > 0,
    ;
    let q = acc / p;
    let m = acc % p;
    assert(v * (p * 256) + (p * q + m) == (v * 256 + q) * p + m) by (nonlinear_arith);
}

fn b32_value(c: u8) -> (r: Option<u8>)
    ensures
        match r {
            Some(v) => b32_value_of(c) == Some(v as nat) && v < 32,
            None => b32_value_of(c) is None,
        },
{
    if c >= 65 && c <= 90 {
        Some(c - 65)
    } else if c >= 50 && c <= 55 {
        Some(c - 24)
    } else {
        None
    }
}

/// The bytes that base32 digits spell.
pub fn base32_decode_bytes(s: &[u8]) -> (r: Option<Vec<u8>>)
    ensures
        match r {
            Some(v) => b32_decoded(s@) == Some(v@),
            None => b32_decoded(s@) is None,
        },
{
    let mut out: Vec<u8> = Vec::new();
    let mut acc: u32 = 0;
    let mut bits: u32 = 0;
    let mut i: usize = 0;
    proof {
        lemma_small_pow2();
    }
    while i < s.len()
        invariant
            i <= s@.len(),
            bits < 8,
            acc < pow2(bits as nat),
            acc < 128,
            8 * out@.len() + bits == 5 * i,
            forall|j: int| 0 <= j < i ==> b32_value_of(#[trigger] s@[j]) is Some,
            bytes::be_value(out@) * pow2(bits as nat) + acc == b32_number(s@.take(i as int)),
        decreases s@.len() - i,
    {
        let d: u8 = match b32_value(s[i]) {
            Some(d) => d,
            None => {
                assert(b32_value_of(s@[i as int]) is None);
                return None;
            },
        };
        let ghost v = bytes::be_value(out@);
        proof {
            assert(s@.take(i + 1).drop_last() =~= s@.take(i as int));
            lemma_small_pow2();
            lemma_pow2_adds(bits as nat, 5);
            let p = pow2(bits as nat);
            assert((v * p + acc) * 32 + d == v * (p * 32) + (acc * 32 + d)) by (nonlinear_arith);
            assert(acc * 32 + d < p * 32) by (nonlinear_arith)
                requires
                    acc + 1 <= p,
                    d < 32,
            ;
        }
        acc = acc * 32 + d as u32;
        bits = bits + 5;
        if bits >= 8 {
            proof {
                lemma_take_byte(v, acc as nat, bits as nat);
            }
            bits = bits - 8;
            let p: u32 = two_to(bits);
            let b: u8 = (acc / p) as u8;
            let ghost before = out@;
            out.push(b);
            assert(out@.drop_last() =~= before);
            acc = acc % p;
        }
        proof {
            lemma_small_pow2();
        }
        i = i + 1;
    }
    proof {
        assert(s@.take(s@.len() as int) =~= s@);
        let n = out@.len();
        assert(n == (5 * s@.len()) / 8);
        let p = pow2(bits as nat);
        let v = bytes::be_value(out@);
        assert((v * p + acc) / (p as int) == v) by (nonlinear_arith)
            requires
                acc < p,
                p > 0,
        ;
        bytes::lemma_be_bytes_of_value(out@);
    }
    Some(out)
}

/// The bytes that base32 text spells; none unless every character is a digit.
pub fn base32_decode(s: &str) -> (r: Option<Vec<u8>>)
    ensures
        match r {
            Some(v) => b32_decoded(s.spec_bytes()) == Some(v@),
            None => b32_decoded(s.spec_bytes()) is None,
        },
{
    base32_decode_bytes(s.as_bytes())
}

proof fn lemma_b32_digits_number(x: nat, n: nat)
    requires
        x < pow2(5 * n),
    ensures
        b32_digits(x, n).len() == n,
        all_b32(b32_digits(x, n)),
        b32_number(b32_digits(x, n)) == x,
    decreases n,
{
    lemma_small_pow2();
    if n > 0 {
        lemma_pow2_adds((5 * (n - 1)) as nat, 5);
        assert(pow2(5 * n) == pow2((5 * (n - 1)) as nat) * 32);
        lemma_b32_digits_number(x / 32, (n - 1) as nat);
        let w = b32_digits(x, n);
        assert(w.drop_last() =~= b32_digits(x / 32, (n - 1) as nat));
        assert(b32_value_of(w.last()) == Some(x % 32));
        assert forall|i: int| 0 <= i < w.len() implies b32_value_of(#[trigger] w[i]) is Some by {
            if i < n - 1 {
                assert(w[i] == b32_digits(x / 32, (n - 1) as nat)[i]);
            }
        }
    }
}

proof fn lemma_be_value_bound(s: Seq<u8>)
    ensures
        bytes::be_value(s) < pow2(8 * s.len()),
    decreases s.len(),
{
    lemma_small_pow2();
    if s.len() > 0 {
        lemma_be_value_bound(s.drop_last());
        lemma_pow2_adds((8 * (s.len() - 1)) as nat, 8);
        assert(pow2(8 * s.len()) == pow2((8 * (s.len() - 1)) as nat) * 256);
    }
}

/// Base32 text reads back as the bytes it was made of.
pub proof fn base32_round_trip(data: Seq<u8>)
    ensures
        b32_decoded(b32_encoded(data)) == Some(data),
{
    let n = b32_len(data.len());
    let pad = (5 * n - 8 * data.len()) as nat;
    let x = bytes::be_value(data);
    let p = pow2(pad);
    lemma_be_value_bound(data);
    lemma_pow2_pos(pad);
    lemma_pow2_adds(8 * data.len(), pad);
    assert(x * p < pow2(8 * data.len()) * p) by (nonlinear_arith)
        requires
            x < pow2(8 * data.len()),
            p > 0,
    ;
    lemma_b32_digits_number(x * p, n);
    assert((5 * n) / 8 == data.len());
    assert(x * p / p == x) by (nonlinear_arith)
        requires
            p > 0,
    ;
    bytes::lemma_be_bytes_of_value(data);
}

/// A number as a varint: seven bits per byte, least significant first, the top
/// bit set on all bytes but the last.
pub open spec fn varint(x: nat) -> Seq<u8>
    decreases x,
{
    if x < 128 {
        seq![x as u8]
    } else {
        seq![(x % 128 + 128) as u8] + varint(x / 128)
    }
}

/// The varint at the start of `buf`, at most `left` bytes long: its value and
/// length.
pub open spec fn parsed_varint(buf: Seq<u8>, left: nat) -> Option<(nat, nat)>
    decreases left,
{
    if left == 0 || buf.len() == 0 {
        None
    } else if buf[0] < 128 {
        Some((buf[0] as nat, 1))
    } else {
        match parsed_varint(buf.skip(1), (left - 1) as nat) {
            Some((v, n)) => Some(((buf[0] - 128) as nat + 128 * v, n + 1)),
            None => None,
        }
    }
}

/// The longest varint that is accepted.
pub open spec fn varint_max() -> nat {
    9
}

/// Appends a varint.
pub fn write_varint(out: &mut Vec<u8>, x: u64)
    ensures
        final(out)@ == old(out)@ + varint(x as nat),
{
    let mut rest: u64 = x;
    while rest >= 128
        invariant
            old(out)@ + varint(x as nat) =~= out@ + varint(rest as nat),
        decreases rest,
    {
        let ghost before = out@;
        let ghost r0 = rest as nat;
        out.push((rest % 128 + 128) as u8);
        rest = rest / 128;
        proof {
            assert(varint(r0) == seq![(r0 % 128 + 128) as u8] + varint(rest as nat));
            assert(before + varint(r0) =~= out@ + varint(rest as nat));
        }
    }
    out.push(rest as u8);
}

/// What a byte of a varint amounts to.
#[derive(Clone, Copy, Debug, PartialEq, Eq, Structural)]
pub enum VarintStep {
    More,
    Done(u64),
    Overflow,
}

/// A varint being read byte by byte.
#[derive(Clone, Copy, Debug, PartialEq, Eq, Structural)]
pub struct VarintReader {
    pub x: u64,
    /// bytes read
    pub n: u8,
}

impl VarintReader {
    pub fn new() -> (r: Self)
        ensures
            r.x == 0,
            r.n == 0,
    {
        VarintReader { x: 0, n: 0 }
    }

    /// The bytes so far carry seven bits each.
    pub open spec fn wf(self) -> bool {
        self.n <= 9 && self.x < pow2((7 * self.n) as nat)
    }

    /// Takes the next byte.  A tenth byte is one too many.
    pub fn feed(&mut self, b: u8) -> (r: VarintStep)
        requires
            old(self).wf(),
        ensures
            old(self).n >= 9 ==> r is Overflow,
            old(self).n < 9 ==> {
                let x = old(self).x + (b % 128) * pow2((7 * old(self).n) as nat);
                &&& final(self).wf()
                &&& final(self).n == old(self).n + 1
                &&& final(self).x == x
                &&& r == (if b < 128 {
                    VarintStep::Done(x as u64)
                } else {
                    VarintStep::More
                })
            },
    {
        if self.n >= 9 {
            return VarintStep::Overflow;
        }
        let low: u64 = (b % 128) as u64;
        let scale: u64 = scale_of(self.n);
        proof {
            let p = pow2((7 * self.n) as nat);
            lemma_pow2_adds((7 * self.n) as nat, 7);
            lemma_small_pow2();
            assert(pow2((7 * (self.n + 1)) as nat) == p * 128);
            assert(self.x + low * p < p * 128) by (nonlinear_arith)
                requires
                    self.x < p,
                    low < 128,
            ;
            lemma_pow2_63((self.n + 1) as nat);
        }
        self.x = self.x + low * scale;
        self.n = self.n + 1;
        if b < 128 {
            VarintStep::Done(self.x)
        } else {
            VarintStep::More
        }
    }
}

proof fn lemma_pow2_63(n: nat)
    requires
        n <= 9,
    ensures
        pow2(7 * n) <= 0x8000_0000_0000_0000,
{
    lemma2_to64();
    lemma2_to64_rest();
    if n < 9 {
        lemma_pow2_strictly_increases(7 * n, 63);
    }
}

/// 128 to the power `n`.
fn scale_of(n: u8) -> (r: u64)
    requires
        n < 9,
    ensures
        r == pow2((7 * n) as nat),
{
    let mut r: u64 = 1;
    let mut i: u8 = 0;
    proof {
        lemma_small_pow2();
    }
    while i < n
        invariant
            i <= n < 9,
            r == pow2((7 * i) as nat),
        decreases n - i,
    {
        proof {
            lemma_small_pow2();
            lemma_pow2_adds((7 * i) as nat, 7);
            lemma_pow2_63((i + 1) as nat);
        }
        r = r * 128;
        i = i + 1;
    }
    r
}

proof fn lemma_varint_value(buf: Seq<u8>, left: nat)
    requires
        left <= 9,
    ensures
        parsed_varint(buf, left) matches Some((v, n)) ==> v < pow2(7 * left) && 1 <= n <= left && n
            <= buf.len(),
    decreases left,
{
    lemma_small_pow2();
    if left > 0 && buf.len() > 0 {
        lemma_pow2_adds((7 * (left - 1)) as nat, 7);
        assert(pow2(7 * left) == pow2((7 * (left - 1)) as nat) * 128);
        lemma_pow2_pos((7 * (left - 1)) as nat);
        if buf[0] >= 128 {
            lemma_varint_value(buf.skip(1), (left - 1) as nat);
        }
    }
}

/// Reads the varint at `pos`: its value and the position behind it.
pub fn slice_varint(buf: &[u8], pos: usize) -> (r: Option<(u64, usize)>)
    requires
        pos <= buf@.len(),
    ensures
        match r {
            Some((v, end)) => parsed_varint(buf@.skip(pos as int), varint_max()) == Some(
                (v as nat, (end - pos) as nat),
            ) && pos < end <= buf@.len(),
            None => parsed_varint(buf@.skip(pos as int), varint_max()) is None,
        },
{
    let mut rd = VarintReader::new();
    let mut at: usize = pos;
    let ghost whole = buf@.skip(pos as int);
    let total: usize = buf.len();
    proof {
        lemma_small_pow2();
        assert(buf@.skip(at as int) =~= whole);
        match parsed_varint(whole, 9) {
            Some((v, n)) => {
                assert(rd.x + pow2((7 * rd.n) as nat) * v == v) by (nonlinear_arith)
                    requires
                        rd.x == 0,
                        pow2((7 * rd.n) as nat) == 1,
                ;
            },
            None => {},
        }
    }
    while at < total && rd.n < 9
        invariant
            total == buf@.len(),
            pos <= at <= total,
            whole == buf@.skip(pos as int),
            rd.wf(),
            at - pos == rd.n,
            // what is left decides, shifted by what was read
            parsed_varint(whole, 9) == (match parsed_varint(
                buf@.skip(at as int),
                (9 - rd.n) as nat,
            ) {
                Some((v, n)) => Some(((rd.x + pow2((7 * rd.n) as nat) * v) as nat, (rd.n + n) as nat)),
                None => None,
            }),
        decreases total - at,
    {
        let b: u8 = buf[at];
        let ghost rest = buf@.skip(at as int);
        let ghost x0 = rd.x;
        let ghost n0 = rd.n;
        let ghost p = pow2((7 * n0) as nat);
        proof {
            assert(rest[0] == b);
            assert(rest.skip(1) =~= buf@.skip(at + 1));
            lemma_pow2_adds((7 * n0) as nat, 7);
            lemma_small_pow2();
            assert((b % 128) * p == p * (b % 128)) by (nonlinear_arith);
        }
        match rd.feed(b) {
            VarintStep::Done(v) => {
                return Some((v, at + 1));
            },
            VarintStep::More => {
                proof {
                    let q = pow2((7 * (n0 + 1)) as nat);
                    assert(q == p * 128);
                    match parsed_varint(rest.skip(1), (8 - n0) as nat) {
                        Some((v, n)) => {
                            assert(x0 + p * ((b - 128) + 128 * v) == (x0 + p * (b - 128)) + (p * 128)
                                * v) by (nonlinear_arith);
                        },
                        None => {},
                    }
                }
            },
            VarintStep::Overflow => {
                return None;
            },
        }
        at = at + 1;
    }
    None
}

/// A number below 2 to the power 63 reads back from its varint.
pub proof fn varint_round_trip(x: nat, rest: Seq<u8>)
    requires
        x < 0x8000_0000_0000_0000,
    ensures
        parsed_varint(varint(x) + rest, varint_max()) == Some((x, varint(x).len())),
        1 <= varint(x).len() <= 9,
{
    lemma2_to64();
    lemma2_to64_rest();
    lemma_varint_reads(x, rest, 9);
}

proof fn lemma_varint_reads(x: nat, rest: Seq<u8>, left: nat)
    requires
        1 <= left <= 9,
        x < pow2(7 * left),
    ensures
        parsed_varint(varint(x) + rest, left) == Some((x, varint(x).len())),
        1 <= varint(x).len() <= left,
    decreases left,
{
    lemma_small_pow2();
    let b = varint(x) + rest;
    if x < 128 {
        assert(b[0] == x);
    } else {
        lemma_pow2_adds((7 * (left - 1)) as nat, 7);
        assert(pow2(7 * left) == pow2((7 * (left - 1)) as nat) * 128);
        assert(left > 1);
        lemma_varint_reads(x / 128, rest, (left - 1) as nat);
        assert(b.skip(1) =~= varint(x / 128) + rest);
        assert(b[0] == (x % 128 + 128) as u8);
    }
}

/// The CID at the start of a frame: its length and where its multihash starts.
/// A bare SHA-256 multihash is a version 0 CID; a version 1 CID is the version,
/// a codec and the multihash.
pub open spec fn parsed_cid(buf: Seq<u8>) -> Option<(nat, nat)> {
    if buf.len() >= 34 && buf[0] == 0x12 && buf[1] == 0x20 {
        Some((34, 0))
    } else {
        match parsed_varint(buf, varint_max()) {
            None => None,
            Some((version, a)) => if version != 1 {
                None
            } else {
                match parsed_varint(buf.skip(a as int), varint_max()) {
                    None => None,
                    Some((_, c)) => {
                        let start = a + c;
                        match parsed_varint(buf.skip(start as int), varint_max()) {
                            None => None,
                            Some((_, d)) => match parsed_varint(
                                buf.skip((start + d) as int),
                                varint_max(),
                            ) {
                                None => None,
                                Some((len, e)) => {
                                    let end = start + d + e + len;
                                    if end > buf.len() {
                                        None
                                    } else {
                                        Some((end, start))
                                    }
                                },
                            },
                        }
                    },
                }
            },
        }
    }
}

/// Parses the CID at the start of a frame: its length and its multihash.
pub fn parse_cid(buf: &[u8]) -> (r: Option<(usize, &[u8])>)
    ensures
        match r {
            Some((end, mh)) => parsed_cid(buf@) matches Some((e, s)) && e == end && s <= e
                && e <= buf@.len() && mh@ == buf@.subrange(s as int, e as int),
            None => parsed_cid(buf@) is None,
        },
{
    let total: usize = buf.len();
    assert(buf@.skip(0) =~= buf@);
    if total >= 34 && buf[0] == 0x12 && buf[1] == 0x20 {
        return Some((34, vstd::slice::slice_subrange(buf, 0, 34)));
    }
    let (version, a) = match slice_varint(buf, 0) {
        Some(x) => x,
        None => {
            return None;
        },
    };
    if version != 1 {
        return None;
    }
    let (_codec, start) = match slice_varint(buf, a) {
        Some(x) => x,
        None => {
            return None;
        },
    };
    let (_code, d) = match slice_varint(buf, start) {
        Some(x) => x,
        None => {
            return None;
        },
    };
    let (len, e) = match slice_varint(buf, d) {
        Some(x) => x,
        None => {
            return None;
        },
    };
    if len > (total - e) as u64 {
        return None;
    }
    let end: usize = e + len as usize;
    Some((end, vstd::slice::slice_subrange(buf, start, end)))
}

/// The key of a block: the prefix and the base32 form of its multihash.
pub fn key_for_multihash(prefix: &[u8], mh: &[u8]) -> (r: BlockKey)
    ensures
        r@ == prefix@ + b32_encoded(mh@),
{
    let mut k: Vec<u8> = Vec::new();
    bytes::push_all(&mut k, prefix);
    bytes::push_all(&mut k, base32_bytes(mh).as_slice());
    assert(k@ =~= prefix@ + b32_encoded(mh@));
    BlockKey(k)
}

/// Whether a multihash is a SHA-256 one.
pub open spec fn is_sha256(mh: Seq<u8>) -> bool {
    mh.len() >= 2 && mh[0] == 0x12 && mh[1] == 0x20
}

/// The block in a frame: key and body.  None when the CID is broken, or the
/// body does not match its SHA-256 and that is checked.
#[verifier::opaque]
pub open spec fn frame_block(frame: Seq<u8>, prefix: Seq<u8>, verify: bool) -> Option<
    (Seq<u8>, Seq<u8>),
> {
    match parsed_cid(frame) {
        None => None,
        Some((end, start)) => {
            let mh = frame.subrange(start as int, end as int);
            let body = frame.skip(end as int);
            if verify && is_sha256(mh) && digest::sha256_of(body) != mh.subrange(2, 34) {
                None
            } else {
                Some((prefix + b32_encoded(mh), body))
            }
        },
    }
}

proof fn lemma_sha256_cid_len(buf: Seq<u8>)
    ensures
        parsed_cid(buf) matches Some((end, start)) ==> start <= end <= buf.len() && (is_sha256(
            buf.subrange(start as int, end as int),
        ) ==> end - start == 34),
{
    match parsed_cid(buf) {
        Some((end, start)) => {
            if !(buf.len() >= 34 && buf[0] == 0x12 && buf[1] == 0x20) {
                let a = parsed_varint(buf, 9)->0;
                lemma_varint_value(buf, 9);
                let t1 = buf.skip(a.1 as int);
                lemma_varint_value(t1, 9);
                let t2 = buf.skip(start as int);
                lemma_varint_value(t2, 9);
                let d = (parsed_varint(t2, 9)->0).1;
                let t3 = buf.skip((start + d) as int);
                lemma_varint_value(t3, 9);
                let mh = buf.subrange(start as int, end as int);
                if is_sha256(mh) {
                    assert(mh[0] == buf[start as int] && mh[1] == buf[start as int + 1]);
                    assert(t2[0] == buf[start as int]);
                    assert(d == 1);
                    assert(t3[0] == buf[start as int + 1]);
                }
            }
        },
        None => {},
    }
}

/// Reads the block in a frame.
pub fn read_frame(frame: &[u8], prefix: &[u8], verify: bool) -> (r: Option<(BlockKey, Vec<u8>)>)
    ensures
        match r {
            Some((k, b)) => frame_block(frame@, prefix@, verify) == Some((k@, b@)),
            None => frame_block(frame@, prefix@, verify) is None,
        },
{
    proof {
        reveal(frame_block);
        lemma_sha256_cid_len(frame@);
    }
    let (end, mh) = match parse_cid(frame) {
        Some(x) => x,
        None => {
            return None;
        },
    };
    let body = bytes::copy_range(frame, end, frame.len());
    assert(body@ =~= frame@.skip(end as int));
    if verify && mh.len() >= 2 && mh[0] == 0x12 && mh[1] == 0x20 {
        let want = bytes::copy_range(mh, 2, 34);
        if !bytes::same_bytes(sha256_bytes(body.as_slice()).as_slice(), want.as_slice()) {
            return None;
        }
    }
    Some((key_for_multihash(prefix, mh), body))
}

/// What a read that ends too early reports.
pub open spec fn short_read() -> Seq<char> {
    "failed to fill whole buffer"@
}

/// Why no varint could be read.
pub open spec fn varint_error(buf: Seq<u8>) -> domain::ErrorView {
    if buf.len() >= 10 {
        domain::ErrorView::Io("car varint overflow"@)
    } else {
        domain::ErrorView::Io("car varint: "@ + short_read())
    }
}

/// The error of a varint that could not be read.
fn varint_failure(left: usize) -> (r: DomainError)
    ensures
        r@ == (if left >= 10 {
            domain::ErrorView::Io("car varint overflow"@)
        } else {
            domain::ErrorView::Io("car varint: "@ + short_read())
        }),
{
    if left >= 10 {
        return DomainError::Io("car varint overflow".to_owned());
    }
    let mut t = "car varint: ".to_owned();
    t.append("failed to fill whole buffer");
    DomainError::Io(t)
}

/// Whether a frame may have that length.
pub open spec fn frame_len_ok(n: nat) -> bool {
    0 < n <= 0x4000_0000
}

/// The error of a frame length that is not accepted.
pub fn check_frame_len(n: u64) -> (r: DomainResult<()>)
    ensures
        r is Ok <==> frame_len_ok(n as nat),
        r matches Err(e) ==> e@ == domain::ErrorView::Io(
            "car: bad frame len "@ + text::dec_chars(n as nat),
        ),
{
    if n == 0 || n > 0x4000_0000 {
        let mut t = "car: bad frame len ".to_owned();
        text::push_dec(&mut t, n);
        return Err(DomainError::Io(t));
    }
    Ok(())
}

/// The blocks of the frames in `buf`, in order, how many frames were dropped,
/// and what stopped the reading, if not the end.
pub open spec fn scanned_frames(buf: Seq<u8>, prefix: Seq<u8>, verify: bool) -> (
    Seq<(Seq<u8>, Seq<u8>)>,
    nat,
    Option<domain::ErrorView>,
)
    decreases buf.len(),
{
    if buf.len() == 0 {
        (Seq::empty(), 0, None)
    } else {
        match parsed_varint(buf, varint_max()) {
            None => (Seq::empty(), 0, Some(varint_error(buf))),
            Some((len, n)) => if !frame_len_ok(len) {
                (
                    Seq::empty(),
                    0,
                    Some(
                        domain::ErrorView::Io("car: bad frame len "@ + text::dec_chars(len)),
                    ),
                )
            } else if n == 0 || buf.len() < n + len {
                (
                    Seq::empty(),
                    0,
                    Some(domain::ErrorView::Io("car frame: "@ + short_read())),
                )
            } else {
                let rest = scanned_frames(buf.skip((n + len) as int), prefix, verify);
                match frame_block(buf.subrange(n as int, (n + len) as int), prefix, verify) {
                    Some(b) => (seq![b] + rest.0, rest.1, rest.2),
                    None => (rest.0, rest.1 + 1, rest.2),
                }
            },
        }
    }
}

/// The pragma of a CARv2 file.
pub open spec fn carv2_pragma() -> Seq<u8> {
    seq![0xa1u8, 0x67, 0x76, 0x65, 0x72, 0x73, 0x69, 0x6f, 0x6e, 0x02]
}

/// Whether a header length is accepted.
pub fn check_header_len(n: u64) -> (r: DomainResult<()>)
    ensures
        r is Ok <==> n <= 0x10_0000,
        r matches Err(e) ==> e@ == domain::ErrorView::Io("car: header too large"@),
{
    if n > 0x10_0000 {
        return Err(DomainError::Io("car: header too large".to_owned()));
    }
    Ok(())
}

/// Whether a header is accepted: any but the pragma of a CARv2 file.
pub fn check_header(hdr: &[u8]) -> (r: DomainResult<()>)
    ensures
        r is Ok <==> hdr@ != carv2_pragma(),
        r matches Err(e) ==> e@ == domain::ErrorView::Io(
            "car: CARv2 не поддерживается (ждали CARv1)"@,
        ),
{
    let pragma: [u8; 10] = [0xa1, 0x67, 0x76, 0x65, 0x72, 0x73, 0x69, 0x6f, 0x6e, 0x02];
    assert(pragma@ =~= carv2_pragma());
    if bytes::same_bytes(hdr, pragma.as_slice()) {
        return Err(
            DomainError::Io("car: CARv2 не поддерживается (ждали CARv1)".to_owned()),
        );
    }
    Ok(())
}

/// Where the frames of an archive start, or why it has no valid header.
pub open spec fn header_end(car: Seq<u8>) -> Result<nat, domain::ErrorView> {
    if car.len() == 0 {
        Err(domain::ErrorView::Io("car: empty file"@))
    } else {
        match parsed_varint(car, varint_max()) {
            None => Err(varint_error(car)),
            Some((len, n)) => if len > 0x10_0000 {
                Err(domain::ErrorView::Io("car: header too large"@))
            } else if car.len() < n + len {
                Err(domain::ErrorView::Io("car header: "@ + short_read()))
            } else if car.subrange(n as int, (n + len) as int) == carv2_pragma() {
                Err(domain::ErrorView::Io("car: CARv2 не поддерживается (ждали CARv1)"@))
            } else {
                Ok(n + len)
            },
        }
    }
}

/// What an archive holds.
#[derive(Debug)]
pub struct CarScan {
    pub blocks: Vec<(BlockKey, Vec<u8>)>,
    /// frames that were dropped
    pub corrupt: usize,
    /// what stopped the reading, if not the end
    pub fault: Option<DomainError>,
}

/// Blocks by value.
pub open spec fn block_views(v: Seq<(BlockKey, Vec<u8>)>) -> Seq<(Seq<u8>, Seq<u8>)> {
    Seq::new(v.len(), |i: int| (v[i].0@, v[i].1@))
}

impl View for CarScan {
    type V = (Seq<(Seq<u8>, Seq<u8>)>, nat, Option<domain::ErrorView>);

    open spec fn view(&self) -> (Seq<(Seq<u8>, Seq<u8>)>, nat, Option<domain::ErrorView>) {
        (
            block_views(self.blocks@),
            self.corrupt as nat,
            match self.fault {
                Some(e) => Some(e@),
                None => None,
            },
        )
    }
}

proof fn lemma_nothing_more(done: Seq<(Seq<u8>, Seq<u8>)>)
    ensures
        done + Seq::<(Seq<u8>, Seq<u8>)>::empty() == done,
{
    assert(done + Seq::<(Seq<u8>, Seq<u8>)>::empty() =~= done);
}

/// Reads all frames behind the header.
fn scan_frames(car: &[u8], from: usize, prefix: &[u8], verify: bool) -> (r: CarScan)
    requires
        from <= car@.len(),
    ensures
        r@ == scanned_frames(car@.skip(from as int), prefix@, verify),
{
    let ghost whole = scanned_frames(car@.skip(from as int), prefix@, verify);
    let total: usize = car.len();
    let mut out = CarScan { blocks: Vec::new(), corrupt: 0, fault: None };
    let mut pos: usize = from;
    assert(block_views(out.blocks@) =~= Seq::empty());
    assert(Seq::<(Seq<u8>, Seq<u8>)>::empty() + whole.0 =~= whole.0);
    while pos < total
        invariant
            total == car@.len(),
            from <= pos <= total,
            whole == scanned_frames(car@.skip(from as int), prefix@, verify),
            out.fault is None,
            out.corrupt <= pos,
            ({
                let rest = scanned_frames(car@.skip(pos as int), prefix@, verify);
                &&& whole.0 == block_views(out.blocks@) + rest.0
                &&& whole.1 == out.corrupt + rest.1
                &&& whole.2 == rest.2
            }),
        decreases total - pos,
    {
        let ghost buf = car@.skip(pos as int);
        let ghost had = block_views(out.blocks@);
        proof {
            lemma_nothing_more(had);
            lemma_varint_value(buf, 9);
        }
        let (len, at) = match slice_varint(car, pos) {
            Some(x) => x,
            None => {
                out.fault = Some(varint_failure(total - pos));
                return out;
            },
        };
        match check_frame_len(len) {
            Ok(_) => {},
            Err(e) => {
                out.fault = Some(e);
                return out;
            },
        }
        if ((total - at) as u64) < len {
            let mut t = "car frame: ".to_owned();
            t.append("failed to fill whole buffer");
            out.fault = Some(DomainError::Io(t));
            return out;
        }
        let end: usize = at + len as usize;
        let frame = vstd::slice::slice_subrange(car, at, end);
        proof {
            let n = at - pos;
            assert(frame@ =~= buf.subrange(n, n + len));
            assert(buf.skip(n + len) =~= car@.skip(end as int));
        }
        let ghost rest = scanned_frames(car@.skip(end as int), prefix@, verify);
        match read_frame(frame, prefix, verify) {
            Some(b) => {
                let ghost v = (b.0@, b.1@);
                out.blocks.push(b);
                assert(block_views(out.blocks@) =~= had.push(v));
                assert(had + (seq![v] + rest.0) =~= block_views(out.blocks@) + rest.0);
            },
            None => {
                out.corrupt = out.corrupt + 1;
            },
        }
        pos = end;
    }
    proof {
        assert(car@.skip(pos as int) =~= Seq::empty());
        lemma_nothing_more(block_views(out.blocks@));
    }
    out
}

/// Reads an archive: its blocks under their keys.  With `verify` a block whose
/// body does not match its SHA-256 multihash is dropped.
pub fn car_import(car: &[u8], key_prefix: &[u8], verify: bool) -> (r: DomainResult<CarScan>)
    ensures
        match header_end(car@) {
            Err(e) => r matches Err(x) && x@ == e,
            Ok(from) => r matches Ok(scan) && from <= car@.len() && scan@ == scanned_frames(
                car@.skip(from as int),
                key_prefix@,
                verify,
            ),
        },
{
    let total: usize = car.len();
    if total == 0 {
        return Err(DomainError::Io("car: empty file".to_owned()));
    }
    assert(car@.skip(0) =~= car@);
    let (len, at) = match slice_varint(car, 0) {
        Some(x) => x,
        None => {
            return Err(varint_failure(total));
        },
    };
    match check_header_len(len) {
        Ok(_) => {},
        Err(e) => {
            return Err(e);
        },
    }
    if ((total - at) as u64) < len {
        let mut t = "car header: ".to_owned();
        t.append("failed to fill whole buffer");
        return Err(DomainError::Io(t));
    }
    let end: usize = at + len as usize;
    match check_header(vstd::slice::slice_subrange(car, at, end)) {
        Ok(_) => {},
        Err(e) => {
            return Err(e);
        },
    }
    Ok(scan_frames(car, end, key_prefix, verify))
}

/// What an import did.
#[derive(Clone, Copy, Debug, PartialEq, Eq, Structural)]
pub struct CarImportReport {
    pub blocks: usize,
    pub bytes: u64,
    /// blocks that were there already
    pub skipped: usize,
    /// frames that were dropped
    pub corrupt: usize,
    pub errors: usize,
}

/// [`CarImportReport`] by value.
pub ghost struct ImportCounts {
    pub blocks: nat,
    pub bytes: nat,
    pub skipped: nat,
    pub corrupt: nat,
    pub errors: nat,
}

impl View for CarImportReport {
    type V = ImportCounts;

    open spec fn view(&self) -> ImportCounts {
        ImportCounts {
            blocks: self.blocks as nat,
            bytes: self.bytes as nat,
            skipped: self.skipped as nat,
            corrupt: self.corrupt as nat,
            errors: self.errors as nat,
        }
    }
}

impl ImportCounts {
    pub open spec fn blank() -> ImportCounts {
        ImportCounts { blocks: 0, bytes: 0, skipped: 0, corrupt: 0, errors: 0 }
    }

    /// The counts after a block: there already, written, or not written.
    pub open spec fn noted(self, there: bool, written: bool, len: nat) -> ImportCounts {
        if there {
            ImportCounts { skipped: self.skipped + 1, ..self }
        } else if written {
            ImportCounts { blocks: self.blocks + 1, bytes: self.bytes + len, ..self }
        } else {
            ImportCounts { errors: self.errors + 1, ..self }
        }
    }
}

impl CarImportReport {
    pub fn new() -> (r: Self)
        ensures
            r@ == ImportCounts::blank(),
    {
        CarImportReport { blocks: 0, bytes: 0, skipped: 0, corrupt: 0, errors: 0 }
    }

    /// Notes a block of `len` bytes: there already, written, or not written.
    pub fn note(&mut self, there: bool, written: bool, len: usize)
        requires
            old(self).blocks < usize::MAX,
            old(self).skipped < usize::MAX,
            old(self).errors < usize::MAX,
            old(self).bytes + len <= u64::MAX,
        ensures
            final(self)@ == old(self)@.noted(there, written, len as nat),
    {
        if there {
            self.skipped = self.skipped + 1;
        } else if written {
            self.blocks = self.blocks + 1;
            self.bytes = self.bytes + len as u64;
        } else {
            self.errors = self.errors + 1;
        }
    }
}

/// What an export did.
#[derive(Clone, Copy, Debug, PartialEq, Eq, Structural)]
pub struct CarExportReport {
    pub blocks: usize,
    pub bytes: u64,
}

/// The header of an exported archive: no roots, version 1.
pub open spec fn export_header() -> Seq<u8> {
    seq![
        17u8,
        0xa2,
        0x65,
        0x72,
        0x6f,
        0x6f,
        0x74,
        0x73,
        0x80,
        0x67,
        0x76,
        0x65,
        0x72,
        0x73,
        0x69,
        0x6f,
        0x6e,
        0x01,
    ]
}

/// The header of an exported archive, with its length in front.
pub fn car_header() -> (r: Vec<u8>)
    ensures
        r@ == export_header(),
{
    let r: Vec<u8> = vec![
        17, 0xa2, 0x65, 0x72, 0x6f, 0x6f, 0x74, 0x73, 0x80, 0x67, 0x76, 0x65, 0x72, 0x73, 0x69,
        0x6f, 0x6e, 0x01,
    ];
    assert(r@ =~= export_header());
    r
}

/// A frame for a block: a version 1 CID with the raw codec, then the body.
pub open spec fn block_frame(mh: Seq<u8>, body: Seq<u8>) -> Seq<u8> {
    varint(2 + mh.len() + body.len()) + seq![0x01u8, 0x55] + mh + body
}

/// The error for a key whose name is not base32.
pub open spec fn unnamed_error(key: Seq<u8>) -> domain::ErrorView {
    domain::ErrorView::Io(
        "car export: ключ не base32-multihash: BlockKey("@ + text::lossy_text(key) + ")"@,
    )
}

fn unnamed(key: &BlockKey) -> (r: DomainError)
    ensures
        r@ == unnamed_error(key@),
{
    let mut t = "car export: ключ не base32-multihash: BlockKey(".to_owned();
    t.append(text::lossy(key.as_bytes()).as_str());
    t.append(")");
    DomainError::Io(t)
}

/// The frame of a stored block; an error when the key's name is not base32.
pub fn export_frame(key: &BlockKey, prefix_len: usize, body: &[u8]) -> (r: DomainResult<Vec<u8>>)
    requires
        prefix_len <= key@.len(),
        key@.len() + body@.len() + 2 <= u64::MAX,
    ensures
        match b32_decoded(key@.skip(prefix_len as int)) {
            Some(mh) => r matches Ok(f) && f@ == block_frame(mh, body@),
            None => r matches Err(e) && e@ == unnamed_error(key@),
        },
{
    let all = key.as_bytes();
    let name = vstd::slice::slice_subrange(all, prefix_len, all.len());
    assert(name@ =~= key@.skip(prefix_len as int));
    let mh = match base32_decode_bytes(name) {
        Some(mh) => mh,
        None => {
            return Err(unnamed(key));
        },
    };
    proof {
        lemma_be_bytes_len(
            b32_number(name@) / pow2((5 * name@.len() - 8 * ((5 * name@.len()) / 8)) as nat),
            ((5 * name@.len()) / 8) as nat,
        );
    }
    let mut out: Vec<u8> = Vec::new();
    write_varint(&mut out, 2 + mh.len() as u64 + body.len() as u64);
    out.push(0x01);
    out.push(0x55);
    bytes::push_all(&mut out, mh.as_slice());
    bytes::push_all(&mut out, body);
    assert(out@ =~= block_frame(mh@, body@));
    Ok(out)
}

proof fn lemma_be_bytes_len(x: nat, n: nat)
    ensures
        bytes::be_bytes(x, n).len() == n,
    decreases n,
{
    if n > 0 {
        lemma_be_bytes_len(x / 256, (n - 1) as nat);
    }
}

/// The frames of blocks, in order.
pub open spec fn block_frames(items: Seq<(Seq<u8>, Seq<u8>)>) -> Seq<u8>
    decreases items.len(),
{
    if items.len() == 0 {
        Seq::empty()
    } else {
        block_frames(items.drop_last()) + block_frame(items.last().0, items.last().1)
    }
}

/// The multihashes that keys name, each with its body; none unless every key
/// names one.
pub open spec fn named_blocks(blocks: Seq<(Seq<u8>, Seq<u8>)>, prefix_len: nat) -> Option<
    Seq<(Seq<u8>, Seq<u8>)>,
>
    decreases blocks.len(),
{
    if blocks.len() == 0 {
        Some(Seq::empty())
    } else {
        match (
            named_blocks(blocks.drop_last(), prefix_len),
            b32_decoded(blocks.last().0.skip(prefix_len as int)),
        ) {
            (Some(rest), Some(mh)) => Some(rest.push((mh, blocks.last().1))),
            _ => None,
        }
    }
}

/// The first key whose name is not base32.
pub open spec fn first_unnamed(blocks: Seq<(Seq<u8>, Seq<u8>)>, prefix_len: nat) -> Option<Seq<u8>>
    decreases blocks.len(),
{
    if blocks.len() == 0 {
        None
    } else {
        match first_unnamed(blocks.drop_last(), prefix_len) {
            Some(k) => Some(k),
            None => if b32_decoded(blocks.last().0.skip(prefix_len as int)) is None {
                Some(blocks.last().0)
            } else {
                None
            },
        }
    }
}

/// Bytes of all bodies.
pub open spec fn body_bytes(blocks: Seq<(Seq<u8>, Seq<u8>)>) -> nat
    decreases blocks.len(),
{
    if blocks.len() == 0 {
        0
    } else {
        body_bytes(blocks.drop_last()) + blocks.last().1.len()
    }
}

proof fn lemma_body_bytes_prefix(blocks: Seq<(Seq<u8>, Seq<u8>)>, n: int)
    requires
        0 <= n <= blocks.len(),
    ensures
        body_bytes(blocks.take(n)) <= body_bytes(blocks),
    decreases blocks.len() - n,
{
    if n == blocks.len() {
        assert(blocks.take(n) =~= blocks);
    } else {
        assert(blocks.take(n + 1).drop_last() =~= blocks.take(n));
        lemma_body_bytes_prefix(blocks, n + 1);
    }
}

proof fn lemma_named_prefix(blocks: Seq<(Seq<u8>, Seq<u8>)>, prefix_len: nat, n: int)
    requires
        0 <= n <= blocks.len(),
        named_blocks(blocks.take(n), prefix_len) is None,
        first_unnamed(blocks.take(n), prefix_len) is Some,
    ensures
        named_blocks(blocks, prefix_len) is None,
        first_unnamed(blocks, prefix_len) == first_unnamed(blocks.take(n), prefix_len),
    decreases blocks.len() - n,
{
    if n == blocks.len() {
        assert(blocks.take(n) =~= blocks);
    } else {
        assert(blocks.take(n + 1).drop_last() =~= blocks.take(n));
        lemma_named_prefix(blocks, prefix_len, n + 1);
    }
}

/// Writes stored blocks as an archive.
pub fn car_export(blocks: &Vec<(BlockKey, Vec<u8>)>, prefix_len: usize) -> (r: DomainResult<
    (Vec<u8>, CarExportReport),
>)
    requires
        forall|i: int|
            0 <= i < blocks@.len() ==> prefix_len <= (#[trigger] blocks@[i]).0@.len()
                && blocks@[i].0@.len() + blocks@[i].1@.len() + 2 <= u64::MAX,
        body_bytes(block_views(blocks@)) <= u64::MAX,
    ensures
        match named_blocks(block_views(blocks@), prefix_len as nat) {
            Some(items) => r matches Ok(x) && x.0@ == export_header() + block_frames(items)
                && x.1.blocks == blocks@.len() && x.1.bytes == body_bytes(block_views(blocks@)),
            None => r matches Err(e) && e@ == unnamed_error(
                first_unnamed(block_views(blocks@), prefix_len as nat)->0,
            ),
        },
        named_blocks(block_views(blocks@), prefix_len as nat) is None <==> first_unnamed(
            block_views(blocks@),
            prefix_len as nat,
        ) is Some,
{
    let ghost bv = block_views(blocks@);
    let mut out = car_header();
    let mut rep = CarExportReport { blocks: 0, bytes: 0 };
    let ghost mut items: Seq<(Seq<u8>, Seq<u8>)> = Seq::empty();
    let mut i: usize = 0;
    assert(export_header() + block_frames(items) =~= export_header());
    while i < blocks.len()
        invariant
            i <= blocks@.len(),
            bv == block_views(blocks@),
            forall|j: int|
                0 <= j < blocks@.len() ==> prefix_len <= (#[trigger] blocks@[j]).0@.len()
                    && blocks@[j].0@.len() + blocks@[j].1@.len() + 2 <= u64::MAX,
            body_bytes(bv) <= u64::MAX,
            named_blocks(bv.take(i as int), prefix_len as nat) == Some(items),
            first_unnamed(bv.take(i as int), prefix_len as nat) is None,
            out@ == export_header() + block_frames(items),
            rep.blocks == i,
            rep.bytes == body_bytes(bv.take(i as int)),
        decreases blocks@.len() - i,
    {
        proof {
            assert(bv.take(i + 1).drop_last() =~= bv.take(i as int));
            assert(bv.take(i + 1).last() == (blocks@[i as int].0@, blocks@[i as int].1@));
            lemma_body_bytes_prefix(bv, i + 1);
        }
        match export_frame(&blocks[i].0, prefix_len, blocks[i].1.as_slice()) {
            Ok(f) => {
                let ghost mh = b32_decoded(blocks@[i as int].0@.skip(prefix_len as int))->0;
                let ghost body = blocks@[i as int].1@;
                let ghost before = out@;
                bytes::push_all(&mut out, f.as_slice());
                proof {
                    let more = items.push((mh, body));
                    assert(more.drop_last() =~= items);
                    assert(before + f@ =~= export_header() + (block_frames(items) + f@));
                    items = more;
                }
            },
            Err(e) => {
                proof {
                    lemma_named_prefix(bv, prefix_len as nat, i + 1);
                }
                return Err(e);
            },
        }
        rep.blocks = rep.blocks + 1;
        rep.bytes = rep.bytes + blocks[i].1.len() as u64;
        i = i + 1;
    }
    assert(bv.take(blocks@.len() as int) =~= bv);
    Ok((out, rep))
}

/// Whether bytes are a multihash: a code, a digest length, and so many bytes.
pub open spec fn is_multihash(mh: Seq<u8>) -> bool {
    match parsed_varint(mh, varint_max()) {
        Some((_, d)) => match parsed_varint(mh.skip(d as int), varint_max()) {
            Some((len, e)) => d + e + len == mh.len(),
            None => false,
        },
        None => false,
    }
}

/// Whether a block survives export and import: its name is a multihash, its
/// frame is not too long, and its SHA-256 matches where that is checked.
pub open spec fn portable(mh: Seq<u8>, body: Seq<u8>, verify: bool) -> bool {
    &&& is_multihash(mh)
    &&& 2 + mh.len() + body.len() <= 0x4000_0000
    &&& verify && is_sha256(mh) ==> digest::sha256_of(body) == mh.subrange(2, 34)
}

proof fn lemma_varint_extends(b: Seq<u8>, more: Seq<u8>, left: nat)
    requires
        parsed_varint(b, left) is Some,
    ensures
        parsed_varint(b + more, left) == parsed_varint(b, left),
    decreases left,
{
    if b[0] >= 128 {
        lemma_varint_extends(b.skip(1), more, (left - 1) as nat);
        assert((b + more).skip(1) =~= b.skip(1) + more);
    }
}

proof fn lemma_frame_reads_back(mh: Seq<u8>, body: Seq<u8>, prefix: Seq<u8>, verify: bool)
    requires
        portable(mh, body, verify),
    ensures
        frame_block(seq![0x01u8, 0x55] + mh + body, prefix, verify) == Some(
            (prefix + b32_encoded(mh), body),
        ),
{
    reveal(frame_block);
    let c = seq![0x01u8, 0x55] + mh + body;
    let (code, d) = parsed_varint(mh, 9)->0;
    let (len, e) = parsed_varint(mh.skip(d as int), 9)->0;
    lemma_varint_value(mh, 9);
    lemma_varint_value(mh.skip(d as int), 9);
    lemma_varint_extends(mh, body, 9);
    lemma_varint_extends(mh.skip(d as int), body, 9);
    assert(c[0] == 1);
    assert(parsed_varint(c, 9) == Some((1nat, 1nat)));
    assert(c.skip(1)[0] == 0x55);
    assert(parsed_varint(c.skip(1), 9) == Some((0x55nat, 1nat)));
    assert(c.skip(2) =~= mh + body);
    assert(c.skip((2 + d) as int) =~= mh.skip(d as int) + body);
    assert(parsed_cid(c) == Some(((2 + mh.len()) as nat, 2nat)));
    assert(c.subrange(2, (2 + mh.len()) as int) =~= mh);
    assert(c.skip((2 + mh.len()) as int) =~= body);
}

proof fn lemma_frames_cons(items: Seq<(Seq<u8>, Seq<u8>)>)
    requires
        items.len() > 0,
    ensures
        block_frames(items) == block_frame(items[0].0, items[0].1) + block_frames(items.skip(1)),
    decreases items.len(),
{
    let p = items.drop_last();
    if items.len() == 1 {
        assert(items.last() == items[0]);
        assert(p =~= Seq::empty());
        assert(items.skip(1) =~= Seq::empty());
        assert(block_frames(p) =~= Seq::empty());
        let f = block_frame(items[0].0, items[0].1);
        assert(Seq::<u8>::empty() + f =~= f + Seq::<u8>::empty());
    } else {
        lemma_frames_cons(p);
        assert(p.skip(1) =~= items.skip(1).drop_last());
        assert(items.skip(1).last() == items.last());
        assert(p[0] == items[0]);
        assert(block_frames(items) =~= block_frame(items[0].0, items[0].1) + (block_frames(
            p.skip(1),
        ) + block_frame(items.last().0, items.last().1)));
    }
}

/// The blocks as an import stores them.
pub open spec fn stored_blocks(items: Seq<(Seq<u8>, Seq<u8>)>, prefix: Seq<u8>) -> Seq<
    (Seq<u8>, Seq<u8>),
> {
    Seq::new(items.len(), |i: int| (prefix + b32_encoded(items[i].0), items[i].1))
}

/// A frame of `content` and what follows it.
proof fn lemma_scan_one(content: Seq<u8>, rest: Seq<u8>, prefix: Seq<u8>, verify: bool)
    requires
        frame_len_ok(content.len()),
        frame_block(content, prefix, verify) is Some,
    ensures
        ({
            let b = varint(content.len()) + content + rest;
            let r = scanned_frames(rest, prefix, verify);
            scanned_frames(b, prefix, verify) == (
                seq![frame_block(content, prefix, verify)->0] + r.0,
                r.1,
                r.2,
            )
        }),
{
    let len = content.len();
    let b = varint(len) + content + rest;
    varint_round_trip(len, content + rest);
    assert(b =~= varint(len) + (content + rest));
    let n = varint(len).len();
    assert(b.subrange(n as int, (n + len) as int) =~= content);
    assert(b.skip((n + len) as int) =~= rest);
}

proof fn lemma_portable_skip(items: Seq<(Seq<u8>, Seq<u8>)>, verify: bool)
    requires
        items.len() > 0,
        all_portable(items, verify),
    ensures
        all_portable(items.skip(1), verify),
{
    let rest = items.skip(1);
    assert forall|i: int| 0 <= i < rest.len() implies portable(
        (#[trigger] rest[i]).0,
        rest[i].1,
        verify,
    ) by {
        assert(rest[i] == items[i + 1]);
    }
}

/// All blocks survive export and import.
pub open spec fn all_portable(items: Seq<(Seq<u8>, Seq<u8>)>, verify: bool) -> bool {
    forall|i: int| 0 <= i < items.len() ==> portable((#[trigger] items[i]).0, items[i].1, verify)
}

/// The frames of one block and of those that follow.
proof fn lemma_first_frame_reads_back(
    mh: Seq<u8>,
    body: Seq<u8>,
    rest: Seq<u8>,
    prefix: Seq<u8>,
    verify: bool,
)
    requires
        portable(mh, body, verify),
    ensures
        ({
            let r = scanned_frames(rest, prefix, verify);
            scanned_frames(block_frame(mh, body) + rest, prefix, verify) == (
                seq![(prefix + b32_encoded(mh), body)] + r.0,
                r.1,
                r.2,
            )
        }),
{
    let content = seq![0x01u8, 0x55] + mh + body;
    lemma_frame_reads_back(mh, body, prefix, verify);
    lemma_scan_one(content, rest, prefix, verify);
    lemma_regroup(varint(2 + mh.len() + body.len()), seq![0x01u8, 0x55], mh, body, rest);
}

proof fn lemma_regroup(a: Seq<u8>, b: Seq<u8>, c: Seq<u8>, d: Seq<u8>, e: Seq<u8>)
    ensures
        a + b + c + d + e == a + (b + c + d) + e,
{
    assert(a + b + c + d + e =~= a + (b + c + d) + e);
}

proof fn lemma_frames_read_back(items: Seq<(Seq<u8>, Seq<u8>)>, prefix: Seq<u8>, verify: bool)
    requires
        all_portable(items, verify),
    ensures
        scanned_frames(block_frames(items), prefix, verify) == (
            stored_blocks(items, prefix),
            0nat,
            None::<domain::ErrorView>,
        ),
    decreases items.len(),
{
    if items.len() == 0 {
        assert(stored_blocks(items, prefix) =~= Seq::empty());
    } else {
        let rest = items.skip(1);
        lemma_portable_skip(items, verify);
        lemma_frames_read_back(rest, prefix, verify);
        lemma_frames_cons(items);
        lemma_first_frame_reads_back(
            items[0].0,
            items[0].1,
            block_frames(rest),
            prefix,
            verify,
        );
        assert(stored_blocks(items, prefix) =~= seq![
            (prefix + b32_encoded(items[0].0), items[0].1),
        ] + stored_blocks(rest, prefix));
    }
}

/// What is exported is imported again: the same blocks under the same keys,
/// nothing dropped.
pub proof fn archive_round_trip(items: Seq<(Seq<u8>, Seq<u8>)>, prefix: Seq<u8>, verify: bool)
    requires
        all_portable(items, verify),
    ensures
        ({
            let car = export_header() + block_frames(items);
            &&& header_end(car) == Ok::<nat, domain::ErrorView>(18)
            &&& scanned_frames(car.skip(18), prefix, verify) == (
                stored_blocks(items, prefix),
                0nat,
                None::<domain::ErrorView>,
            )
            // the keys name the multihashes again
            &&& named_blocks(stored_blocks(items, prefix), prefix.len()) == Some(items)
        }),
{
    let car = export_header() + block_frames(items);
    assert(car[0] == 17);
    assert(parsed_varint(car, 9) == Some((17nat, 1nat)));
    assert(car.subrange(1, 18).len() == 17);
    assert(car.subrange(1, 18)[0] == 0xa2);
    assert(carv2_pragma()[0] == 0xa1);
    assert(car.skip(18) =~= block_frames(items));
    lemma_frames_read_back(items, prefix, verify);
    lemma_named_again(items, prefix);
}

proof fn lemma_named_again(items: Seq<(Seq<u8>, Seq<u8>)>, prefix: Seq<u8>)
    ensures
        named_blocks(stored_blocks(items, prefix), prefix.len()) == Some(items),
    decreases items.len(),
{
    let sb = stored_blocks(items, prefix);
    if items.len() == 0 {
        assert(items =~= Seq::empty());
    } else {
        let p = items.drop_last();
        lemma_named_again(p, prefix);
        assert(sb.drop_last() =~= stored_blocks(p, prefix));
        let mh = items.last().0;
        assert(sb.last().0.skip(prefix.len() as int) =~= b32_encoded(mh));
        base32_round_trip(mh);
        assert(p.push(items.last()) =~= items);
    }
}

/// A store and the counts after blocks were imported one after the other, all writes going
/// well: what is there already is not written again.
pub open spec fn imported(
    held: Map<Seq<u8>, Seq<u8>>,
    counts: ImportCounts,
    blocks: Seq<(Seq<u8>, Seq<u8>)>,
) -> (Map<Seq<u8>, Seq<u8>>, ImportCounts)
    decreases blocks.len(),
{
    if blocks.len() == 0 {
        (held, counts)
    } else {
        let (h, c) = imported(held, counts, blocks.drop_last());
        let (key, body) = blocks.last();
        if h.contains_key(key) {
            (h, c.noted(true, false, body.len()))
        } else {
            (h.insert(key, body), c.noted(false, true, body.len()))
        }
    }
}

/// No key twice.
pub open spec fn keys_differ(blocks: Seq<(Seq<u8>, Seq<u8>)>) -> bool {
    forall|i: int, j: int|
        0 <= i < j < blocks.len() ==> (#[trigger] blocks[i]).0 != (#[trigger] blocks[j]).0
}

/// A store that holds exactly these blocks.
pub open spec fn holds_blocks(
    held: Map<Seq<u8>, Seq<u8>>,
    blocks: Seq<(Seq<u8>, Seq<u8>)>,
) -> bool {
    &&& forall|i: int|
        0 <= i < blocks.len() ==> held.contains_key((#[trigger] blocks[i]).0) && held[blocks[i].0]
            == blocks[i].1
    &&& forall|k: Seq<u8>| #[trigger]
        held.contains_key(k) ==> exists|i: int| 0 <= i < blocks.len() && (#[trigger] blocks[i]).0 == k
}

proof fn lemma_first_import(blocks: Seq<(Seq<u8>, Seq<u8>)>)
    requires
        keys_differ(blocks),
    ensures
        ({
            let (h, c) = imported(Map::empty(), ImportCounts::blank(), blocks);
            &&& holds_blocks(h, blocks)
            &&& c == (ImportCounts {
                blocks: blocks.len(),
                bytes: body_bytes(blocks),
                ..ImportCounts::blank()
            })
        }),
    decreases blocks.len(),
{
    if blocks.len() > 0 {
        let p = blocks.drop_last();
        assert forall|i: int, j: int| 0 <= i < j < p.len() implies (#[trigger] p[i]).0 != (
        #[trigger] p[j]).0 by {
            assert(p[i] == blocks[i] && p[j] == blocks[j]);
        }
        lemma_first_import(p);
        let h = imported(Map::empty(), ImportCounts::blank(), p).0;
        let (key, body) = blocks.last();
        assert(blocks[blocks.len() - 1] == (key, body));
        if h.contains_key(key) {
            let i = choose|i: int| 0 <= i < p.len() && (#[trigger] p[i]).0 == key;
            assert(blocks[i] == p[i]);
        }
        let now = h.insert(key, body);
        assert forall|i: int| 0 <= i < blocks.len() implies now.contains_key(
            (#[trigger] blocks[i]).0,
        ) && now[blocks[i].0] == blocks[i].1 by {
            if i < p.len() {
                assert(p[i] == blocks[i]);
                assert(blocks[i].0 != blocks[blocks.len() - 1].0);
            }
        }
        assert forall|k: Seq<u8>| #[trigger] now.contains_key(k) implies exists|i: int|
            0 <= i < blocks.len() && (#[trigger] blocks[i]).0 == k by {
            if k != key {
                let i = choose|i: int| 0 <= i < p.len() && (#[trigger] p[i]).0 == k;
                assert(blocks[i].0 == k);
            }
        }
    }
}

proof fn lemma_next_import(
    held: Map<Seq<u8>, Seq<u8>>,
    all: Seq<(Seq<u8>, Seq<u8>)>,
    n: int,
)
    requires
        holds_blocks(held, all),
        0 <= n <= all.len(),
    ensures
        imported(held, ImportCounts::blank(), all.take(n)) == (
            held,
            ImportCounts { skipped: n as nat, ..ImportCounts::blank() },
        ),
    decreases n,
{
    if n > 0 {
        lemma_next_import(held, all, n - 1);
        assert(all.take(n).drop_last() =~= all.take(n - 1));
        assert(all.take(n).last() == all[n - 1]);
    }
}

/// An import of blocks brings every one into an empty store, bit for bit; a second import
/// of the same blocks writes nothing and skips every one.
pub proof fn second_imports_write_nothing(blocks: Seq<(Seq<u8>, Seq<u8>)>)
    requires
        keys_differ(blocks),
    ensures
        ({
            let blank = ImportCounts::blank();
            let (h1, c1) = imported(Map::empty(), blank, blocks);
            let (h2, c2) = imported(h1, blank, blocks);
            &&& holds_blocks(h1, blocks)
            &&& c1 == (ImportCounts { blocks: blocks.len(), bytes: body_bytes(blocks), ..blank })
            &&& h2 == h1
            &&& c2 == (ImportCounts { skipped: blocks.len(), ..blank })
        }),
{
    lemma_first_import(blocks);
    let h1 = imported(Map::empty(), ImportCounts::blank(), blocks).0;
    lemma_next_import(h1, blocks, blocks.len() as int);
    assert(blocks.take(blocks.len() as int) =~= blocks);
}

/// The multihash of a body by its SHA-256.
pub open spec fn sha256_name(body: Seq<u8>) -> Seq<u8> {
    seq![0x12u8, 0x20] + digest::sha256_of(body)
}

/// Whether every block lies under the key that its body's SHA-256 names, and fits a frame.
pub open spec fn named_by_hash(blocks: Seq<(Seq<u8>, Seq<u8>)>, prefix: Seq<u8>) -> bool {
    forall|i: int|
        0 <= i < blocks.len() ==> (#[trigger] blocks[i]).0 == prefix + b32_encoded(
            sha256_name(blocks[i].1),
        ) && blocks[i].1.len() <= 0x4000_0000 - 36
}

/// The blocks of a store with their names.
spec fn hashed(blocks: Seq<(Seq<u8>, Seq<u8>)>) -> Seq<(Seq<u8>, Seq<u8>)> {
    Seq::new(blocks.len(), |i: int| (sha256_name(blocks[i].1), blocks[i].1))
}

proof fn lemma_sha256_name(body: Seq<u8>)
    ensures
        sha256_name(body).len() == 34,
        is_multihash(sha256_name(body)),
        is_sha256(sha256_name(body)),
        sha256_name(body).subrange(2, 34) == digest::sha256_of(body),
{
    let mh = sha256_name(body);
    assert(digest::sha256_of(body).len() == 32);
    assert(mh[0] == 0x12 && mh[1] == 0x20);
    assert(parsed_varint(mh, varint_max()) == Some((0x12nat, 1nat)));
    assert(mh.skip(1)[0] == 0x20);
    assert(parsed_varint(mh.skip(1), varint_max()) == Some((0x20nat, 1nat)));
    assert(mh.subrange(2, 34) =~= digest::sha256_of(body));
}

/// What the reading of an archive is waiting for.
#[derive(Clone, Copy, Debug, PartialEq, Eq, Structural)]
pub enum CarPhase {
    /// a byte of the header's length
    HeaderLen,
    /// the header
    Header,
    /// a byte of a frame's length
    FrameLen,
    /// a frame
    Frame,
    /// a block to be stored
    Store,
    Done,
}

/// An archive being read piece by piece.
#[derive(Debug)]
pub struct CarReader {
    pub prefix: Vec<u8>,
    pub verify: bool,
    pub phase: CarPhase,
    /// the length as far as it was read
    pub len: VarintReader,
    /// frames that were dropped
    pub corrupt: usize,
}

/// [`CarReader`] by value.
pub ghost struct CarReaderView {
    pub prefix: Seq<u8>,
    pub verify: bool,
    pub phase: CarPhase,
    /// the length as far as it was read, and in how many bytes
    pub x: nat,
    pub n: nat,
    pub corrupt: nat,
}

impl View for CarReader {
    type V = CarReaderView;

    open spec fn view(&self) -> CarReaderView {
        CarReaderView {
            prefix: self.prefix@,
            verify: self.verify,
            phase: self.phase,
            x: self.len.x as nat,
            n: self.len.n as nat,
            corrupt: self.corrupt as nat,
        }
    }
}

/// What came of the last action.
#[derive(Debug)]
pub enum CarEvent {
    /// as many bytes as were asked for
    Got(Vec<u8>),
    /// there were not as many: whether the archive ended, and the text of the error
    Short(bool, String),
    /// the block was handed on
    Stored,
}

/// [`CarEvent`] by value.
pub ghost enum CarEventView {
    Got(Seq<u8>),
    Short(bool, Seq<char>),
    Stored,
}

impl View for CarEvent {
    type V = CarEventView;

    open spec fn view(&self) -> CarEventView {
        match *self {
            CarEvent::Got(b) => CarEventView::Got(b@),
            CarEvent::Short(end, t) => CarEventView::Short(end, t@),
            CarEvent::Stored => CarEventView::Stored,
        }
    }
}

/// What the reading wants done.
#[derive(Debug)]
pub enum CarAction {
    /// read so many bytes
    Read(usize),
    /// hand a block on
    Store(BlockKey, Vec<u8>),
    Finish(DomainResult<()>),
}

/// [`CarAction`] by value.
pub ghost enum CarActionView {
    Read(nat),
    Store(Seq<u8>, Seq<u8>),
    Finish(Result<(), domain::ErrorView>),
}

impl View for CarAction {
    type V = CarActionView;

    open spec fn view(&self) -> CarActionView {
        match *self {
            CarAction::Read(n) => CarActionView::Read(n as nat),
            CarAction::Store(k, b) => CarActionView::Store(k@, b@),
            CarAction::Finish(r) => CarActionView::Finish(
                match r {
                    Ok(_) => Ok(()),
                    Err(e) => Err(e@),
                },
            ),
        }
    }
}

impl CarReaderView {
    pub open spec fn at(self, phase: CarPhase) -> CarReaderView {
        CarReaderView { phase, ..self }
    }

    pub open spec fn finished(self, r: Result<(), domain::ErrorView>) -> (
        CarReaderView,
        CarActionView,
    ) {
        (self.at(CarPhase::Done), CarActionView::Finish(r))
    }

    /// Read the length of the next frame.
    pub open spec fn next_frame(self) -> (CarReaderView, CarActionView) {
        (CarReaderView { phase: CarPhase::FrameLen, x: 0, n: 0, ..self }, CarActionView::Read(1))
    }

    /// A length is complete.
    pub open spec fn measured(self, len: nat) -> (CarReaderView, CarActionView) {
        if self.phase is HeaderLen {
            if len > 0x10_0000 {
                self.finished(Err(domain::ErrorView::Io("car: header too large"@)))
            } else {
                (self.at(CarPhase::Header), CarActionView::Read(len))
            }
        } else if !frame_len_ok(len) {
            self.finished(
                Err(domain::ErrorView::Io("car: bad frame len "@ + text::dec_chars(len))),
            )
        } else {
            (self.at(CarPhase::Frame), CarActionView::Read(len))
        }
    }

    /// One more byte of a length.
    pub open spec fn measure(self, b: u8) -> (CarReaderView, CarActionView) {
        let x = (self.x + (b % 128) * pow2(7 * self.n)) as nat;
        let v = CarReaderView { x, n: self.n + 1, ..self };
        if self.n >= 9 {
            self.finished(Err(domain::ErrorView::Io("car varint overflow"@)))
        } else if b >= 128 {
            (v, CarActionView::Read(1))
        } else {
            v.measured(x)
        }
    }

    /// What happens next.
    pub open spec fn step(self, ev: CarEventView) -> (CarReaderView, CarActionView) {
        match (self.phase, ev) {
            (CarPhase::HeaderLen, CarEventView::Got(b)) if b.len() == 1 => self.measure(b[0]),
            (CarPhase::FrameLen, CarEventView::Got(b)) if b.len() == 1 => self.measure(b[0]),
            (CarPhase::HeaderLen, CarEventView::Short(end, t)) => if end && self.n == 0 {
                self.finished(Err(domain::ErrorView::Io("car: empty file"@)))
            } else {
                self.finished(Err(domain::ErrorView::Io("car varint: "@ + t)))
            },
            (CarPhase::FrameLen, CarEventView::Short(end, t)) => if end && self.n == 0 {
                self.finished(Ok(()))
            } else {
                self.finished(Err(domain::ErrorView::Io("car varint: "@ + t)))
            },
            (CarPhase::Header, CarEventView::Got(h)) => if h == carv2_pragma() {
                self.finished(
                    Err(domain::ErrorView::Io("car: CARv2 не поддерживается (ждали CARv1)"@)),
                )
            } else {
                self.next_frame()
            },
            (CarPhase::Header, CarEventView::Short(_, t)) => self.finished(
                Err(domain::ErrorView::Io("car header: "@ + t)),
            ),
            (CarPhase::Frame, CarEventView::Got(f)) => match frame_block(
                f,
                self.prefix,
                self.verify,
            ) {
                Some((k, b)) => (self.at(CarPhase::Store), CarActionView::Store(k, b)),
                None => CarReaderView { corrupt: self.corrupt + 1, ..self }.next_frame(),
            },
            (CarPhase::Frame, CarEventView::Short(_, t)) => self.finished(
                Err(domain::ErrorView::Io("car frame: "@ + t)),
            ),
            (CarPhase::Store, CarEventView::Stored) => self.next_frame(),
            _ => self.finished(Err(domain::ErrorView::Io("car: unexpected answer"@))),
        }
    }

    /// The state before the first answer.
    pub open spec fn begun(prefix: Seq<u8>, verify: bool) -> (CarReaderView, CarActionView) {
        (
            CarReaderView {
                prefix,
                verify,
                phase: CarPhase::HeaderLen,
                x: 0,
                n: 0,
                corrupt: 0,
            },
            CarActionView::Read(1),
        )
    }
}

/// An error's text behind a label.
fn labelled(label: &str, why: String) -> (r: DomainError)
    ensures
        r@ == domain::ErrorView::Io(label@ + why@),
{
    let mut t = label.to_owned();
    t.append(why.as_str());
    DomainError::Io(t)
}

impl CarReader {
    pub open spec fn wf(self) -> bool {
        self.len.wf()
    }

    /// Starts to read an archive whose blocks get keys under a prefix.
    pub fn begin(prefix: &[u8], verify: bool) -> (r: (CarReader, CarAction))
        ensures
            r.0.wf(),
            (r.0@, r.1@) == CarReaderView::begun(prefix@, verify),
    {
        let p = bytes::copy_range(prefix, 0, prefix.len());
        assert(p@ =~= prefix@);
        proof {
            lemma_small_pow2();
        }
        (
            CarReader {
                prefix: p,
                verify,
                phase: CarPhase::HeaderLen,
                len: VarintReader::new(),
                corrupt: 0,
            },
            CarAction::Read(1),
        )
    }

    fn finished(&mut self, r: DomainResult<()>) -> (a: CarAction)
        requires
            old(self).wf(),
        ensures
            final(self).wf(),
            (final(self)@, a@) == old(self)@.finished(
                match r {
                    Ok(_) => Ok(()),
                    Err(e) => Err(e@),
                },
            ),
    {
        self.phase = CarPhase::Done;
        CarAction::Finish(r)
    }

    fn next_frame(&mut self) -> (a: CarAction)
        ensures
            final(self).wf(),
            (final(self)@, a@) == old(self)@.next_frame(),
    {
        proof {
            lemma_small_pow2();
        }
        self.phase = CarPhase::FrameLen;
        self.len = VarintReader::new();
        CarAction::Read(1)
    }

    fn measure(&mut self, b: u8) -> (a: CarAction)
        requires
            old(self).wf(),
            old(self).phase is HeaderLen || old(self).phase is FrameLen,
        ensures
            final(self).wf(),
            (final(self)@, a@) == old(self)@.measure(b),
    {
        if self.len.n >= 9 {
            return self.finished(Err(DomainError::Io("car varint overflow".to_owned())));
        }
        let header = match self.phase {
            CarPhase::HeaderLen => true,
            _ => false,
        };
        match self.len.feed(b) {
            VarintStep::More => CarAction::Read(1),
            VarintStep::Done(n) => {
                let fit = if header {
                    check_header_len(n)
                } else {
                    check_frame_len(n)
                };
                match fit {
                    Ok(_) => {
                        self.phase = if header {
                            CarPhase::Header
                        } else {
                            CarPhase::Frame
                        };
                        CarAction::Read(n as usize)
                    },
                    Err(e) => self.finished(Err(e)),
                }
            },
            VarintStep::Overflow => self.finished(
                Err(DomainError::Io("car varint overflow".to_owned())),
            ),
        }
    }

    /// Takes what came of the last action and returns the next one.
    pub fn advance(&mut self, ev: CarEvent) -> (a: CarAction)
        requires
            old(self).wf(),
            old(self).corrupt < usize::MAX,
        ensures
            final(self).wf(),
            (final(self)@, a@) == old(self)@.step(ev@),
    {
        match (self.phase, ev) {
            (CarPhase::HeaderLen, CarEvent::Got(b)) => {
                if b.len() == 1 {
                    return self.measure(b[0]);
                }
                self.finished(Err(DomainError::Io("car: unexpected answer".to_owned())))
            },
            (CarPhase::FrameLen, CarEvent::Got(b)) => {
                if b.len() == 1 {
                    return self.measure(b[0]);
                }
                self.finished(Err(DomainError::Io("car: unexpected answer".to_owned())))
            },
            (CarPhase::HeaderLen, CarEvent::Short(end, t)) => {
                if end && self.len.n == 0 {
                    return self.finished(Err(DomainError::Io("car: empty file".to_owned())));
                }
                self.finished(Err(labelled("car varint: ", t)))
            },
            (CarPhase::FrameLen, CarEvent::Short(end, t)) => {
                if end && self.len.n == 0 {
                    return self.finished(Ok(()));
                }
                self.finished(Err(labelled("car varint: ", t)))
            },
            (CarPhase::Header, CarEvent::Got(h)) => match check_header(h.as_slice()) {
                Ok(_) => self.next_frame(),
                Err(e) => self.finished(Err(e)),
            },
            (CarPhase::Header, CarEvent::Short(_, t)) => self.finished(
                Err(labelled("car header: ", t)),
            ),
            (CarPhase::Frame, CarEvent::Got(f)) => match read_frame(
                f.as_slice(),
                self.prefix.as_slice(),
                self.verify,
            ) {
                Some((k, b)) => {
                    self.phase = CarPhase::Store;
                    CarAction::Store(k, b)
                },
                None => {
                    self.corrupt = self.corrupt + 1;
                    self.next_frame()
                },
            },
            (CarPhase::Frame, CarEvent::Short(_, t)) => self.finished(
                Err(labelled("car frame: ", t)),
            ),
            (CarPhase::Store, CarEvent::Stored) => self.next_frame(),
            _ => self.finished(Err(DomainError::Io("car: unexpected answer".to_owned()))),
        }
    }
}

/// A moment of reading an archive: where it stands, what it wants done, how many bytes were
/// read, and the blocks handed on.
pub ghost struct CarMoment {
    pub state: CarReaderView,
    pub action: CarActionView,
    pub pos: int,
    pub out: Seq<(Seq<u8>, Seq<u8>)>,
}

/// Whether one moment follows another when the archive is `car`.
pub open spec fn car_follows(car: Seq<u8>, a: CarMoment, b: CarMoment) -> bool {
    match a.action {
        CarActionView::Read(n) => {
            let ev = if a.pos + n <= car.len() {
                CarEventView::Got(car.subrange(a.pos, a.pos + n))
            } else {
                CarEventView::Short(true, short_read())
            };
            &&& (b.state, b.action) == a.state.step(ev)
            &&& b.pos == (if a.pos + n <= car.len() {
                a.pos + n
            } else {
                car.len() as int
            })
            &&& b.out == a.out
        },
        CarActionView::Store(k, body) => {
            &&& (b.state, b.action) == a.state.step(CarEventView::Stored)
            &&& b.pos == a.pos
            &&& b.out == a.out.push((k, body))
        },
        CarActionView::Finish(_) => false,
    }
}

/// The moments of reading an archive, from the first on.
pub open spec fn is_car_read(
    car: Seq<u8>,
    prefix: Seq<u8>,
    verify: bool,
    run: Seq<CarMoment>,
) -> bool {
    &&& run.len() > 0
    &&& (run[0].state, run[0].action) == CarReaderView::begun(prefix, verify)
    &&& run[0].pos == 0
    &&& run[0].out == Seq::<(Seq<u8>, Seq<u8>)>::empty()
    &&& forall|i: int| 0 < i < run.len() ==> car_follows(car, run[i - 1], #[trigger] run[i])
}

/// The length that starts `n` bytes before `pos` is what was read of it, and what follows.
spec fn measuring(car: Seq<u8>, v: CarReaderView, pos: int) -> bool {
    &&& v.n <= 9
    &&& v.n <= pos <= car.len()
    &&& parsed_varint(car.skip(pos - v.n), 9) == (match parsed_varint(
        car.skip(pos),
        (9 - v.n) as nat,
    ) {
        Some((y, c)) => Some(((v.x + pow2(7 * v.n) * y) as nat, v.n + c)),
        None => None,
    })
}

/// What was handed on and what the frames behind `from` hold is what the archive holds.
spec fn framing(car: Seq<u8>, end: nat, m: CarMoment, from: int) -> bool {
    let v = m.state;
    let whole = scanned_frames(car.skip(end as int), v.prefix, v.verify);
    let rest = scanned_frames(car.skip(from), v.prefix, v.verify);
    &&& header_end(car) == Ok::<nat, domain::ErrorView>(end)
    &&& 0 <= from <= car.len()
    &&& whole == (m.out + rest.0, v.corrupt + rest.1, rest.2)
}

/// What holds at every moment of reading an archive.
spec fn car_safe(car: Seq<u8>, m: CarMoment) -> bool {
    let v = m.state;
    match v.phase {
        CarPhase::HeaderLen => {
            &&& m.action == CarActionView::Read(1)
            &&& m.out.len() == 0 && v.corrupt == 0
            &&& m.pos == v.n
            &&& measuring(car, v, m.pos)
        },
        CarPhase::Header => {
            &&& m.action is Read
            &&& m.out.len() == 0 && v.corrupt == 0
            &&& 0 < m.pos <= car.len()
            &&& parsed_varint(car, 9) == Some((m.action->Read_0, m.pos as nat))
            &&& m.action->Read_0 <= 0x10_0000
        },
        CarPhase::FrameLen => {
            &&& m.action == CarActionView::Read(1)
            &&& measuring(car, v, m.pos)
            &&& exists|end: nat| #[trigger] framing(car, end, m, m.pos - v.n)
        },
        CarPhase::Frame => {
            &&& m.action is Read
            &&& 0 < v.n <= m.pos <= car.len()
            &&& parsed_varint(car.skip(m.pos - v.n), 9) == Some((m.action->Read_0, v.n))
            &&& frame_len_ok(m.action->Read_0)
            &&& exists|end: nat| #[trigger] framing(car, end, m, m.pos - v.n)
        },
        CarPhase::Store => {
            &&& m.action is Store
            &&& exists|end: nat| #[trigger]
                framing(
                    car,
                    end,
                    CarMoment {
                        out: m.out.push((m.action->Store_0, m.action->Store_1)),
                        ..m
                    },
                    m.pos,
                )
        },
        CarPhase::Done => {
            &&& m.action matches CarActionView::Finish(r)
            &&& match header_end(car) {
                Err(e) => r == Err::<(), domain::ErrorView>(e) && m.out.len() == 0,
                Ok(end) => scanned_frames(car.skip(end as int), v.prefix, v.verify) == (
                    m.out,
                    v.corrupt,
                    match r {
                        Ok(_) => None,
                        Err(e) => Some(e),
                    },
                ),
            }
        },
    }
}

/// At the start of a length nothing of it was read.
proof fn lemma_measure_begins(car: Seq<u8>, v: CarReaderView, pos: int)
    requires
        v.n == 0,
        v.x == 0,
        0 <= pos <= car.len(),
    ensures
        measuring(car, v, pos),
{
    lemma_small_pow2();
    if let Some((y, c)) = parsed_varint(car.skip(pos), 9) {
        assert(pow2(7 * v.n) * y == y) by (nonlinear_arith)
            requires
                pow2(7 * v.n) == 1,
        ;
    }
}

/// One more byte of a length.
proof fn lemma_measure_on(car: Seq<u8>, v: CarReaderView, pos: int)
    requires
        measuring(car, v, pos),
        v.n < 9,
        pos < car.len(),
    ensures
        ({
            let b = car[pos];
            let x = (v.x + (b % 128) * pow2(7 * v.n)) as nat;
            &&& b >= 128 ==> measuring(car, CarReaderView { x, n: v.n + 1, ..v }, pos + 1)
            &&& b < 128 ==> parsed_varint(car.skip(pos - v.n), 9) == Some((x, v.n + 1))
        }),
{
    let b = car[pos];
    let p = pow2(7 * v.n);
    let x = (v.x + (b % 128) * p) as nat;
    let rest = car.skip(pos);
    assert(rest[0] == b);
    assert(rest.skip(1) =~= car.skip(pos + 1));
    lemma_small_pow2();
    lemma_pow2_adds(7 * v.n, 7);
    assert(pow2(7 * (v.n + 1)) == p * 128);
    assert((b % 128) * p == p * (b % 128)) by (nonlinear_arith);
    if b >= 128 {
        match parsed_varint(rest.skip(1), (8 - v.n) as nat) {
            Some((y, c)) => {
                assert(v.x + p * ((b - 128) + 128 * y) == (v.x + p * (b - 128)) + (p * 128) * y)
                    by (nonlinear_arith);
            },
            None => {},
        }
    }
}

/// Where a length ends too early.
proof fn lemma_measure_stops(car: Seq<u8>, v: CarReaderView, pos: int)
    requires
        measuring(car, v, pos),
        v.n >= 9 || pos == car.len(),
    ensures
        parsed_varint(car.skip(pos - v.n), 9) is None,
        car.skip(pos - v.n).len() == car.len() - pos + v.n,
{
    assert(car.skip(pos).len() == car.len() - pos);
}

proof fn lemma_header_len_step(car: Seq<u8>, a: CarMoment, b: CarMoment)
    requires
        car_safe(car, a),
        a.state.phase is HeaderLen,
        car_follows(car, a, b),
    ensures
        car_safe(car, b),
{
    let v = a.state;
    assert(car.skip(0) =~= car);
    if a.pos < car.len() {
        let got = car.subrange(a.pos, a.pos + 1);
        assert(got.len() == 1 && got[0] == car[a.pos]);
        if v.n < 9 {
            lemma_measure_on(car, v, a.pos);
        } else {
            lemma_measure_stops(car, v, a.pos);
        }
    } else {
        lemma_measure_stops(car, v, a.pos);
    }
}

proof fn lemma_header_step(car: Seq<u8>, a: CarMoment, b: CarMoment)
    requires
        car_safe(car, a),
        a.state.phase is Header,
        car_follows(car, a, b),
    ensures
        car_safe(car, b),
{
    let n = a.action->Read_0;
    if a.pos + n <= car.len() && car.subrange(a.pos, a.pos + n) != carv2_pragma() {
        let end = (a.pos + n) as nat;
        lemma_measure_begins(car, b.state, b.pos);
        let rest = scanned_frames(car.skip(end as int), b.state.prefix, b.state.verify);
        assert(b.out + rest.0 =~= rest.0);
        assert(framing(car, end, b, b.pos - b.state.n));
    }
}

proof fn lemma_frame_len_step(car: Seq<u8>, a: CarMoment, b: CarMoment)
    requires
        car_safe(car, a),
        a.state.phase is FrameLen,
        car_follows(car, a, b),
    ensures
        car_safe(car, b),
{
    let v = a.state;
    let from = a.pos - v.n;
    let end = choose|end: nat| #[trigger] framing(car, end, a, from);
    let buf = car.skip(from);
    lemma_nothing_more(a.out);
    if a.pos < car.len() {
        let got = car.subrange(a.pos, a.pos + 1);
        assert(got.len() == 1 && got[0] == car[a.pos]);
        if v.n < 9 {
            lemma_measure_on(car, v, a.pos);
            if !(b.state.phase is Done) {
                assert(framing(car, end, b, b.pos - b.state.n));
            }
        } else {
            lemma_measure_stops(car, v, a.pos);
        }
    } else {
        lemma_measure_stops(car, v, a.pos);
    }
}

proof fn lemma_frame_step(car: Seq<u8>, a: CarMoment, b: CarMoment)
    requires
        car_safe(car, a),
        a.state.phase is Frame,
        car_follows(car, a, b),
    ensures
        car_safe(car, b),
{
    let v = a.state;
    let from = a.pos - v.n;
    let end = choose|end: nat| #[trigger] framing(car, end, a, from);
    let buf = car.skip(from);
    let len = a.action->Read_0;
    let n = v.n;
    lemma_nothing_more(a.out);
    assert(buf.len() == car.len() - from);
    if a.pos + len <= car.len() {
        assert(buf.subrange(n as int, (n + len) as int) =~= car.subrange(a.pos, a.pos + len));
        assert(buf.skip((n + len) as int) =~= car.skip(b.pos));
        let rest = scanned_frames(car.skip(b.pos), v.prefix, v.verify);
        match frame_block(car.subrange(a.pos, a.pos + len), v.prefix, v.verify) {
            Some(x) => {
                assert(a.out + (seq![x] + rest.0) =~= a.out.push(x) + rest.0);
                assert(framing(car, end, CarMoment { out: b.out.push(x), ..b }, b.pos));
            },
            None => {
                lemma_measure_begins(car, b.state, b.pos);
                assert(framing(car, end, b, b.pos - b.state.n));
            },
        }
    }
}

proof fn lemma_store_step(car: Seq<u8>, a: CarMoment, b: CarMoment)
    requires
        car_safe(car, a),
        a.state.phase is Store,
        car_follows(car, a, b),
    ensures
        car_safe(car, b),
{
    let x = CarMoment { out: a.out.push((a.action->Store_0, a.action->Store_1)), ..a };
    let end = choose|end: nat| #[trigger] framing(car, end, x, a.pos);
    lemma_measure_begins(car, b.state, b.pos);
    assert(framing(car, end, b, b.pos - b.state.n));
}

proof fn lemma_car_read(
    car: Seq<u8>,
    prefix: Seq<u8>,
    verify: bool,
    run: Seq<CarMoment>,
    i: int,
)
    requires
        is_car_read(car, prefix, verify, run),
        0 <= i < run.len(),
    ensures
        car_safe(car, run[i]),
        run[i].state.prefix == prefix,
        run[i].state.verify == verify,
    decreases i,
{
    if i == 0 {
        lemma_measure_begins(car, run[0].state, 0);
    } else {
        lemma_car_read(car, prefix, verify, run, i - 1);
        let (a, b) = (run[i - 1], run[i]);
        assert(car_follows(car, a, b));
        match a.state.phase {
            CarPhase::HeaderLen => lemma_header_len_step(car, a, b),
            CarPhase::Header => lemma_header_step(car, a, b),
            CarPhase::FrameLen => lemma_frame_len_step(car, a, b),
            CarPhase::Frame => lemma_frame_step(car, a, b),
            CarPhase::Store => lemma_store_step(car, a, b),
            CarPhase::Done => {},
        }
    }
}

/// Reading an archive piece by piece gives what reading it as a whole gives: the same
/// blocks in the same order, as many frames dropped, and the same error.
pub proof fn pieces_read_like_the_whole(
    car: Seq<u8>,
    prefix: Seq<u8>,
    verify: bool,
    run: Seq<CarMoment>,
    i: int,
)
    requires
        is_car_read(car, prefix, verify, run),
        0 <= i < run.len(),
        run[i].action is Finish,
    ensures
        match header_end(car) {
            Err(e) => run[i].action == CarActionView::Finish(Err(e)) && run[i].out.len() == 0,
            Ok(end) => scanned_frames(car.skip(end as int), prefix, verify) == (
                run[i].out,
                run[i].state.corrupt,
                match run[i].action->Finish_0 {
                    Ok(_) => None,
                    Err(e) => Some(e),
                },
            ),
        },
{
    lemma_car_read(car, prefix, verify, run, i);
}

/// Keys that an export lists at a time.
pub const EXPORT_PAGE: usize = 1024;

/// What the writing of an archive is waiting for.
#[derive(Clone, Copy, Debug, PartialEq, Eq, Structural)]
pub enum ExportPhase {
    /// the header to be written
    Header,
    /// a page of keys
    Page,
    /// a block's body
    Fetch,
    /// a frame to be written
    Frame,
    /// everything to be flushed
    Flush,
    Done,
}

/// An archive being written from a store, page by page.
#[derive(Debug)]
pub struct CarWriter {
    pub prefix_len: usize,
    pub phase: ExportPhase,
    /// the page of keys at hand, and how many of them are done
    pub keys: Vec<BlockKey>,
    pub next: usize,
    pub report: CarExportReport,
}

/// [`CarWriter`] by value.
pub ghost struct CarWriterView {
    pub prefix_len: nat,
    pub phase: ExportPhase,
    pub keys: Seq<Seq<u8>>,
    pub next: nat,
    pub blocks: nat,
    pub bytes: nat,
}

/// Keys by value.
pub open spec fn key_views(v: Seq<BlockKey>) -> Seq<Seq<u8>> {
    Seq::new(v.len(), |i: int| v[i]@)
}

impl View for CarWriter {
    type V = CarWriterView;

    open spec fn view(&self) -> CarWriterView {
        CarWriterView {
            prefix_len: self.prefix_len as nat,
            phase: self.phase,
            keys: key_views(self.keys@),
            next: self.next as nat,
            blocks: self.report.blocks as nat,
            bytes: self.report.bytes as nat,
        }
    }
}

/// What came of the last action of an export.
#[derive(Debug)]
pub enum ExportEvent {
    /// written, or flushed
    Did,
    /// the next keys
    Page(Vec<BlockKey>),
    Body(Vec<u8>),
    /// the block was deleted meanwhile
    Gone,
    Failed(DomainError),
}

/// [`ExportEvent`] by value.
pub ghost enum ExportEventView {
    Did,
    Page(Seq<Seq<u8>>),
    Body(Seq<u8>),
    Gone,
    Failed(domain::ErrorView),
}

impl View for ExportEvent {
    type V = ExportEventView;

    open spec fn view(&self) -> ExportEventView {
        match *self {
            ExportEvent::Did => ExportEventView::Did,
            ExportEvent::Page(keys) => ExportEventView::Page(key_views(keys@)),
            ExportEvent::Body(b) => ExportEventView::Body(b@),
            ExportEvent::Gone => ExportEventView::Gone,
            ExportEvent::Failed(e) => ExportEventView::Failed(e@),
        }
    }
}

/// What an export wants done.
#[derive(Debug)]
pub enum ExportAction {
    Write(Vec<u8>),
    /// list at most [`EXPORT_PAGE`] keys behind one
    List(Option<BlockKey>),
    Get(BlockKey),
    Flush,
    Finish(DomainResult<CarExportReport>),
}

/// [`ExportAction`] by value; a report is its blocks and bytes.
pub ghost enum ExportActionView {
    Write(Seq<u8>),
    List(Option<Seq<u8>>),
    Get(Seq<u8>),
    Flush,
    Finish(Result<(nat, nat), domain::ErrorView>),
}

impl View for ExportAction {
    type V = ExportActionView;

    open spec fn view(&self) -> ExportActionView {
        match *self {
            ExportAction::Write(b) => ExportActionView::Write(b@),
            ExportAction::List(after) => ExportActionView::List(
                match after {
                    Some(k) => Some(k@),
                    None => None,
                },
            ),
            ExportAction::Get(k) => ExportActionView::Get(k@),
            ExportAction::Flush => ExportActionView::Flush,
            ExportAction::Finish(r) => ExportActionView::Finish(
                match r {
                    Ok(x) => Ok((x.blocks as nat, x.bytes as nat)),
                    Err(e) => Err(e@),
                },
            ),
        }
    }
}

/// The multihash that a key names behind a prefix.
pub open spec fn named_by(key: Seq<u8>, prefix_len: nat) -> Option<Seq<u8>> {
    if prefix_len <= key.len() {
        b32_decoded(key.skip(prefix_len as int))
    } else {
        None
    }
}

impl CarWriterView {
    pub open spec fn finished(self, r: Result<(nat, nat), domain::ErrorView>) -> (
        CarWriterView,
        ExportActionView,
    ) {
        (CarWriterView { phase: ExportPhase::Done, ..self }, ExportActionView::Finish(r))
    }

    /// The next key of the page; behind a full page, the next page.
    pub open spec fn go_on(self) -> (CarWriterView, ExportActionView) {
        if self.next < self.keys.len() {
            (
                CarWriterView { phase: ExportPhase::Fetch, ..self },
                ExportActionView::Get(self.keys[self.next as int]),
            )
        } else if self.keys.len() < EXPORT_PAGE {
            (CarWriterView { phase: ExportPhase::Flush, ..self }, ExportActionView::Flush)
        } else {
            (
                CarWriterView { phase: ExportPhase::Page, ..self },
                ExportActionView::List(Some(self.keys.last())),
            )
        }
    }

    /// The body of the key at hand.
    pub open spec fn fetched(self, body: Seq<u8>) -> (CarWriterView, ExportActionView) {
        let key = self.keys[self.next as int];
        match named_by(key, self.prefix_len) {
            Some(mh) => (
                CarWriterView {
                    phase: ExportPhase::Frame,
                    next: self.next + 1,
                    blocks: self.blocks + 1,
                    bytes: self.bytes + body.len(),
                    ..self
                },
                ExportActionView::Write(block_frame(mh, body)),
            ),
            None => self.finished(Err(unnamed_error(key))),
        }
    }

    /// What happens next.
    pub open spec fn step(self, ev: ExportEventView) -> (CarWriterView, ExportActionView) {
        match (self.phase, ev) {
            (_, ExportEventView::Failed(e)) => self.finished(Err(e)),
            (ExportPhase::Header, ExportEventView::Did) => (
                CarWriterView { phase: ExportPhase::Page, ..self },
                ExportActionView::List(None),
            ),
            (ExportPhase::Page, ExportEventView::Page(keys)) => CarWriterView {
                keys,
                next: 0,
                ..self
            }.go_on(),
            (ExportPhase::Fetch, ExportEventView::Gone) => CarWriterView {
                next: self.next + 1,
                ..self
            }.go_on(),
            (ExportPhase::Fetch, ExportEventView::Body(b)) => self.fetched(b),
            (ExportPhase::Frame, ExportEventView::Did) => self.go_on(),
            (ExportPhase::Flush, ExportEventView::Did) => self.finished(
                Ok((self.blocks, self.bytes)),
            ),
            _ => self.finished(Err(domain::ErrorView::Io("car export: unexpected answer"@))),
        }
    }

    /// The state before the first answer.
    pub open spec fn begun(prefix_len: nat) -> (CarWriterView, ExportActionView) {
        (
            CarWriterView {
                prefix_len,
                phase: ExportPhase::Header,
                keys: Seq::empty(),
                next: 0,
                blocks: 0,
                bytes: 0,
            },
            ExportActionView::Write(export_header()),
        )
    }
}

impl CarWriter {
    pub open spec fn wf(self) -> bool {
        &&& self.next <= self.keys@.len()
        &&& self.phase is Fetch ==> self.next < self.keys@.len()
    }

    /// Whether the counters, and a frame's length, can hold what an event brings.
    pub open spec fn takes(self, ev: ExportEventView) -> bool {
        self.phase is Fetch && ev is Body ==> {
            &&& self.keys@[self.next as int]@.len() + ev->Body_0.len() + 2 <= u64::MAX
            &&& self.report.bytes + ev->Body_0.len() <= u64::MAX
            &&& self.report.blocks < usize::MAX
        }
    }

    /// Starts to write the blocks under a prefix of a length.
    pub fn begin(prefix_len: usize) -> (r: (CarWriter, ExportAction))
        ensures
            r.0.wf(),
            (r.0@, r.1@) == CarWriterView::begun(prefix_len as nat),
    {
        let w = CarWriter {
            prefix_len,
            phase: ExportPhase::Header,
            keys: Vec::new(),
            next: 0,
            report: CarExportReport { blocks: 0, bytes: 0 },
        };
        assert(w@.keys =~= Seq::empty());
        (w, ExportAction::Write(car_header()))
    }

    fn finished(&mut self, r: DomainResult<CarExportReport>) -> (a: ExportAction)
        requires
            old(self).wf(),
        ensures
            final(self).wf(),
            (final(self)@, a@) == old(self)@.finished(
                match r {
                    Ok(x) => Ok((x.blocks as nat, x.bytes as nat)),
                    Err(e) => Err(e@),
                },
            ),
    {
        self.phase = ExportPhase::Done;
        ExportAction::Finish(r)
    }

    fn go_on(&mut self) -> (a: ExportAction)
        requires
            old(self).next <= old(self).keys@.len(),
        ensures
            final(self).wf(),
            (final(self)@, a@) == old(self)@.go_on(),
    {
        if self.next < self.keys.len() {
            self.phase = ExportPhase::Fetch;
            return ExportAction::Get(self.keys[self.next].clone());
        }
        if self.keys.len() < EXPORT_PAGE {
            self.phase = ExportPhase::Flush;
            return ExportAction::Flush;
        }
        self.phase = ExportPhase::Page;
        ExportAction::List(Some(self.keys[self.keys.len() - 1].clone()))
    }

    fn fetched(&mut self, body: Vec<u8>) -> (a: ExportAction)
        requires
            old(self).wf(),
            old(self).phase is Fetch,
            old(self).takes(ExportEventView::Body(body@)),
        ensures
            final(self).wf(),
            (final(self)@, a@) == old(self)@.fetched(body@),
    {
        let i: usize = self.next;
        assert(i < self.keys.len());
        assert(self@.keys[i as int] == self.keys@[i as int]@);
        if self.prefix_len > self.keys[i].len() {
            let e = unnamed(&self.keys[i]);
            return self.finished(Err(e));
        }
        match export_frame(&self.keys[i], self.prefix_len, body.as_slice()) {
            Ok(f) => {
                self.phase = ExportPhase::Frame;
                self.next = i + 1;
                self.report.blocks = self.report.blocks + 1;
                self.report.bytes = self.report.bytes + body.len() as u64;
                ExportAction::Write(f)
            },
            Err(e) => self.finished(Err(e)),
        }
    }

    /// Takes what came of the last action and returns the next one.
    pub fn advance(&mut self, ev: ExportEvent) -> (a: ExportAction)
        requires
            old(self).wf(),
            old(self).takes(ev@),
        ensures
            final(self).wf(),
            (final(self)@, a@) == old(self)@.step(ev@),
    {
        match (self.phase, ev) {
            (_, ExportEvent::Failed(e)) => self.finished(Err(e)),
            (ExportPhase::Header, ExportEvent::Did) => {
                self.phase = ExportPhase::Page;
                ExportAction::List(None)
            },
            (ExportPhase::Page, ExportEvent::Page(keys)) => {
                self.keys = keys;
                self.next = 0;
                self.go_on()
            },
            (ExportPhase::Fetch, ExportEvent::Gone) => {
                assert(self.next < self.keys.len());
                self.next = self.next + 1;
                self.go_on()
            },
            (ExportPhase::Fetch, ExportEvent::Body(b)) => self.fetched(b),
            (ExportPhase::Frame, ExportEvent::Did) => self.go_on(),
            (ExportPhase::Flush, ExportEvent::Did) => {
                let r = self.report;
                self.finished(Ok(r))
            },
            _ => self.finished(Err(DomainError::Io("car export: unexpected answer".to_owned()))),
        }
    }
}

/// The blocks of a list whose keys are not gone.
pub open spec fn present(all: Seq<(Seq<u8>, Seq<u8>)>, gone: Set<Seq<u8>>) -> Seq<
    (Seq<u8>, Seq<u8>),
>
    decreases all.len(),
{
    if all.len() == 0 {
        Seq::empty()
    } else if gone.contains(all.last().0) {
        present(all.drop_last(), gone)
    } else {
        present(all.drop_last(), gone).push(all.last())
    }
}

/// The keys of blocks from one place to another.
pub open spec fn keys_between(all: Seq<(Seq<u8>, Seq<u8>)>, from: int, to: int) -> Seq<Seq<u8>> {
    Seq::new((to - from) as nat, |i: int| all[from + i].0)
}

/// The place of a key in a list of blocks.
pub open spec fn place_of(all: Seq<(Seq<u8>, Seq<u8>)>, key: Seq<u8>) -> int {
    choose|i: int| 0 <= i < all.len() && (#[trigger] all[i]).0 == key
}

/// What a store that lists `all` in order answers when asked for keys behind one.
pub open spec fn page_after(all: Seq<(Seq<u8>, Seq<u8>)>, after: Option<Seq<u8>>) -> Seq<Seq<u8>> {
    let from = match after {
        Some(k) => place_of(all, k) + 1,
        None => 0,
    };
    let to = if all.len() - from < EXPORT_PAGE {
        all.len() as int
    } else {
        from + EXPORT_PAGE
    };
    keys_between(all, from, to)
}

/// A moment of an export: where it stands, what it wants done, and what was written.
pub ghost struct ExportMoment {
    pub state: CarWriterView,
    pub action: ExportActionView,
    pub written: Seq<u8>,
}

/// Whether one moment follows another when the store lists `all`, and the keys in `gone`
/// were deleted meanwhile.
pub open spec fn export_follows(
    all: Seq<(Seq<u8>, Seq<u8>)>,
    gone: Set<Seq<u8>>,
    a: ExportMoment,
    b: ExportMoment,
) -> bool {
    match a.action {
        ExportActionView::Write(f) => {
            &&& (b.state, b.action) == a.state.step(ExportEventView::Did)
            &&& b.written == a.written + f
        },
        ExportActionView::List(after) => {
            &&& (b.state, b.action) == a.state.step(ExportEventView::Page(page_after(all, after)))
            &&& b.written == a.written
        },
        ExportActionView::Get(k) => {
            let ev = if gone.contains(k) {
                ExportEventView::Gone
            } else {
                ExportEventView::Body(all[place_of(all, k)].1)
            };
            &&& (b.state, b.action) == a.state.step(ev)
            &&& b.written == a.written
        },
        ExportActionView::Flush => {
            &&& (b.state, b.action) == a.state.step(ExportEventView::Did)
            &&& b.written == a.written
        },
        ExportActionView::Finish(_) => false,
    }
}

/// The moments of an export, from the first on.
pub open spec fn is_export(
    all: Seq<(Seq<u8>, Seq<u8>)>,
    gone: Set<Seq<u8>>,
    prefix_len: nat,
    run: Seq<ExportMoment>,
) -> bool {
    &&& run.len() > 0
    &&& (run[0].state, run[0].action) == CarWriterView::begun(prefix_len)
    &&& run[0].written == Seq::<u8>::empty()
    &&& forall|i: int|
        0 < i < run.len() ==> export_follows(all, gone, run[i - 1], #[trigger] run[i])
}

/// What was written is the archive of the blocks `out`, and the report counts them.
spec fn wrote(v: CarWriterView, written: Seq<u8>, out: Seq<(Seq<u8>, Seq<u8>)>) -> bool {
    &&& named_blocks(out, v.prefix_len) is Some
    &&& first_unnamed(out, v.prefix_len) is None
    &&& written == export_header() + block_frames(named_blocks(out, v.prefix_len)->0)
    &&& v.blocks == out.len()
    &&& v.bytes == body_bytes(out)
}

/// The page at hand starts at a place, and the blocks before its next key are written.
spec fn paged(
    all: Seq<(Seq<u8>, Seq<u8>)>,
    gone: Set<Seq<u8>>,
    v: CarWriterView,
    written: Seq<u8>,
    from: int,
) -> bool {
    let to = from + v.keys.len();
    &&& 0 <= from && to <= all.len()
    &&& v.keys == keys_between(all, from, to)
    &&& v.keys.len() < EXPORT_PAGE ==> to == all.len()
    &&& v.next <= v.keys.len()
    &&& wrote(v, written, present(all.take(from + v.next), gone))
}

/// What holds at every moment of an export.
spec fn export_safe(all: Seq<(Seq<u8>, Seq<u8>)>, gone: Set<Seq<u8>>, m: ExportMoment) -> bool {
    let v = m.state;
    let kept = present(all, gone);
    match v.phase {
        ExportPhase::Header => {
            &&& m.action == ExportActionView::Write(export_header())
            &&& m.written.len() == 0
            &&& v.blocks == 0 && v.bytes == 0
        },
        ExportPhase::Page => {
            &&& m.action matches ExportActionView::List(after)
            &&& match after {
                None => wrote(v, m.written, Seq::empty()),
                Some(k) => exists|i: int|
                    0 <= i < all.len() && (#[trigger] all[i]).0 == k && wrote(
                        v,
                        m.written,
                        present(all.take(i + 1), gone),
                    ),
            }
        },
        ExportPhase::Fetch => {
            &&& v.next < v.keys.len()
            &&& m.action == ExportActionView::Get(v.keys[v.next as int])
            &&& exists|from: int| #[trigger] paged(all, gone, v, m.written, from)
        },
        ExportPhase::Frame => {
            &&& m.action is Write
            &&& exists|from: int| #[trigger]
                paged(all, gone, v, m.written + m.action->Write_0, from)
        },
        ExportPhase::Flush => m.action is Flush && wrote(v, m.written, kept),
        ExportPhase::Done => match named_blocks(kept, v.prefix_len) {
            Some(items) => m.action == ExportActionView::Finish(
                Ok((kept.len(), body_bytes(kept))),
            ) && m.written == export_header() + block_frames(items),
            None => first_unnamed(kept, v.prefix_len) is Some && m.action
                == ExportActionView::Finish(
                Err(unnamed_error(first_unnamed(kept, v.prefix_len)->0)),
            ),
        },
    }
}

/// Going on from a page keeps what holds.
proof fn lemma_export_goes_on(
    all: Seq<(Seq<u8>, Seq<u8>)>,
    gone: Set<Seq<u8>>,
    v: CarWriterView,
    written: Seq<u8>,
    from: int,
)
    requires
        paged(all, gone, v, written, from),
    ensures
        export_safe(
            all,
            gone,
            ExportMoment { state: v.go_on().0, action: v.go_on().1, written },
        ),
{
    let w = v.go_on().0;
    let m = ExportMoment { state: w, action: v.go_on().1, written };
    if v.next < v.keys.len() {
        assert(paged(all, gone, m.state, m.written, from));
    } else if v.keys.len() < EXPORT_PAGE {
        assert(all.take(from + v.next) =~= all);
    } else {
        let i = from + v.keys.len() - 1;
        assert(v.keys.last() == all[i].0);
        assert(wrote(w, written, present(all.take(i + 1), gone)));
    }
}

proof fn lemma_export_page(
    all: Seq<(Seq<u8>, Seq<u8>)>,
    gone: Set<Seq<u8>>,
    a: ExportMoment,
    b: ExportMoment,
)
    requires
        keys_differ(all),
        export_safe(all, gone, a),
        a.state.phase is Page,
        export_follows(all, gone, a, b),
    ensures
        export_safe(all, gone, b),
{
    let after = a.action->List_0;
    let keys = page_after(all, after);
    let v = CarWriterView { keys, next: 0, ..a.state };
    let from = match after {
        None => 0,
        Some(k) => place_of(all, k) + 1,
    };
    if let Some(k) = after {
        let i = choose|i: int|
            0 <= i < all.len() && (#[trigger] all[i]).0 == k && wrote(
                a.state,
                a.written,
                present(all.take(i + 1), gone),
            );
        let p = place_of(all, k);
        assert(all[i].0 == k);
        assert(0 <= p < all.len() && all[p].0 == k);
        assert(p == i);
    } else {
        assert(present(all.take(0), gone) =~= Seq::empty());
    }
    assert(keys == keys_between(all, from, from + keys.len()));
    assert(paged(all, gone, v, a.written, from));
    lemma_export_goes_on(all, gone, v, a.written, from);
}

/// The blocks kept of a part are the first of the blocks kept of the whole.
proof fn lemma_present_prefix(all: Seq<(Seq<u8>, Seq<u8>)>, gone: Set<Seq<u8>>, n: int)
    requires
        0 <= n <= all.len(),
    ensures
        present(all.take(n), gone).len() <= present(all, gone).len(),
        present(all, gone).take(present(all.take(n), gone).len() as int) == present(
            all.take(n),
            gone,
        ),
    decreases all.len() - n,
{
    let part = present(all.take(n), gone);
    if n == all.len() {
        assert(all.take(n) =~= all);
        assert(part.take(part.len() as int) =~= part);
    } else {
        lemma_present_prefix(all, gone, n + 1);
        let more = present(all.take(n + 1), gone);
        assert(all.take(n + 1).drop_last() =~= all.take(n));
        assert(more.take(part.len() as int) =~= part);
        let whole = present(all, gone);
        assert(whole.take(part.len() as int) =~= whole.take(more.len() as int).take(
            part.len() as int,
        ));
    }
}

proof fn lemma_export_fetch(
    all: Seq<(Seq<u8>, Seq<u8>)>,
    gone: Set<Seq<u8>>,
    a: ExportMoment,
    b: ExportMoment,
)
    requires
        keys_differ(all),
        forall|i: int| 0 <= i < all.len() ==> a.state.prefix_len <= (#[trigger] all[i]).0.len(),
        export_safe(all, gone, a),
        a.state.phase is Fetch,
        export_follows(all, gone, a, b),
    ensures
        export_safe(all, gone, b),
{
    let v = a.state;
    let from = choose|from: int| #[trigger] paged(all, gone, v, a.written, from);
    let at = from + v.next;
    let key = v.keys[v.next as int];
    assert(key == all[at].0);
    let before = present(all.take(at), gone);
    let more = present(all.take(at + 1), gone);
    assert(all.take(at + 1).drop_last() =~= all.take(at));
    assert(all.take(at + 1).last() == all[at]);
    if gone.contains(key) {
        let w = CarWriterView { next: v.next + 1, ..v };
        assert(paged(all, gone, w, a.written, from));
        lemma_export_goes_on(all, gone, w, a.written, from);
    } else {
        let p = place_of(all, key);
        assert(0 <= p < all.len() && all[p].0 == key);
        assert(p == at);
        let body = all[at].1;
        assert(more == before.push((key, body)));
        assert(more.drop_last() =~= before);
        assert(more.last() == (key, body));
        match named_by(key, v.prefix_len) {
            Some(mh) => {
                let items = named_blocks(before, v.prefix_len)->0;
                let after = items.push((mh, body));
                assert(named_blocks(more, v.prefix_len) == Some(after));
                assert(after.drop_last() =~= items);
                let f = block_frame(mh, body);
                assert(a.written + f =~= export_header() + (block_frames(items) + f));
                assert(b.action->Write_0 == f);
                assert(paged(all, gone, b.state, b.written + b.action->Write_0, from));
            },
            None => {
                let kept = present(all, gone);
                lemma_present_prefix(all, gone, at + 1);
                lemma_named_prefix(kept, v.prefix_len, more.len() as int);
            },
        }
    }
}

proof fn lemma_export(
    all: Seq<(Seq<u8>, Seq<u8>)>,
    gone: Set<Seq<u8>>,
    prefix_len: nat,
    run: Seq<ExportMoment>,
    i: int,
)
    requires
        keys_differ(all),
        forall|j: int| 0 <= j < all.len() ==> prefix_len <= (#[trigger] all[j]).0.len(),
        is_export(all, gone, prefix_len, run),
        0 <= i < run.len(),
    ensures
        export_safe(all, gone, run[i]),
        run[i].state.prefix_len == prefix_len,
    decreases i,
{
    if i > 0 {
        lemma_export(all, gone, prefix_len, run, i - 1);
        let (a, b) = (run[i - 1], run[i]);
        assert(export_follows(all, gone, a, b));
        match a.state.phase {
            ExportPhase::Header => {
                let none = Seq::<(Seq<u8>, Seq<u8>)>::empty();
                assert(b.written =~= export_header() + block_frames(none));
            },
            ExportPhase::Page => lemma_export_page(all, gone, a, b),
            ExportPhase::Fetch => lemma_export_fetch(all, gone, a, b),
            ExportPhase::Frame => {
                let from = choose|from: int| #[trigger]
                    paged(all, gone, a.state, a.written + a.action->Write_0, from);
                lemma_export_goes_on(all, gone, a.state, b.written, from);
            },
            ExportPhase::Flush => {},
            ExportPhase::Done => {},
        }
    }
}

/// An export page by page writes the archive that all blocks at once give: of every block
/// that the store lists and still has, in the order of the list, with a report that counts
/// them. When a key's name is not base32, the first such key is the error.
pub proof fn exports_write_every_block(
    all: Seq<(Seq<u8>, Seq<u8>)>,
    gone: Set<Seq<u8>>,
    prefix_len: nat,
    run: Seq<ExportMoment>,
    i: int,
)
    requires
        keys_differ(all),
        forall|j: int| 0 <= j < all.len() ==> prefix_len <= (#[trigger] all[j]).0.len(),
        is_export(all, gone, prefix_len, run),
        0 <= i < run.len(),
        run[i].action is Finish,
    ensures
        match named_blocks(present(all, gone), prefix_len) {
            Some(items) => {
                &&& run[i].action == ExportActionView::Finish(
                    Ok((present(all, gone).len(), body_bytes(present(all, gone)))),
                )
                &&& run[i].written == export_header() + block_frames(items)
            },
            None => run[i].action == ExportActionView::Finish(
                Err(unnamed_error(first_unnamed(present(all, gone), prefix_len)->0)),
            ),
        },
{
    lemma_export(all, gone, prefix_len, run, i);
}

proof fn lemma_all_present(all: Seq<(Seq<u8>, Seq<u8>)>)
    ensures
        present(all, Set::empty()) == all,
    decreases all.len(),
{
    if all.len() > 0 {
        lemma_all_present(all.drop_last());
        assert(all.drop_last().push(all.last()) =~= all);
    } else {
        assert(all =~= Seq::empty());
    }
}

/// A store whose blocks lie under the keys that their hashes name can be exported, and the
/// import of the archive, which checks the hashes, drops nothing and finds these blocks: in
/// an empty store that is the same store, bit for bit, and when the archive is imported
/// again nothing is written and every block is skipped.
pub proof fn archives_give_back_a_store(source: Seq<(Seq<u8>, Seq<u8>)>, prefix: Seq<u8>)
    requires
        keys_differ(source),
        named_by_hash(source, prefix),
    ensures
        named_blocks(source, prefix.len()) is Some,
        ({
            let car = export_header() + block_frames(named_blocks(source, prefix.len())->0);
            let blank = ImportCounts::blank();
            let (h1, c1) = imported(Map::empty(), blank, source);
            let (h2, c2) = imported(h1, blank, source);
            &&& header_end(car) == Ok::<nat, domain::ErrorView>(18)
            &&& scanned_frames(car.skip(18), prefix, true) == (
                source,
                0nat,
                None::<domain::ErrorView>,
            )
            &&& holds_blocks(h1, source)
            &&& c1 == (ImportCounts { blocks: source.len(), bytes: body_bytes(source), ..blank })
            &&& h2 == h1
            &&& c2 == (ImportCounts { skipped: source.len(), ..blank })
        }),
{
    let items = hashed(source);
    assert forall|n: int| 0 <= n < items.len() implies portable(
        (#[trigger] items[n]).0,
        items[n].1,
        true,
    ) by {
        assert(source[n].1 == items[n].1);
        lemma_sha256_name(source[n].1);
    }
    assert(stored_blocks(items, prefix) =~= source) by {
        assert forall|n: int| 0 <= n < source.len() implies #[trigger] stored_blocks(
            items,
            prefix,
        )[n] == source[n] by {
            assert(source[n].0 == prefix + b32_encoded(sha256_name(source[n].1)));
        }
    }
    archive_round_trip(items, prefix, true);
    second_imports_write_nothing(source);
}

/// The same, piece by piece: an export of such a store ends well and counts every block,
/// and an import of what it wrote ends well and hands on the blocks of the store.
pub proof fn archives_copy_a_store(
    source: Seq<(Seq<u8>, Seq<u8>)>,
    prefix: Seq<u8>,
    exports: Seq<ExportMoment>,
    i: int,
    reads: Seq<CarMoment>,
    j: int,
)
    requires
        keys_differ(source),
        named_by_hash(source, prefix),
        is_export(source, Set::empty(), prefix.len(), exports),
        0 <= i < exports.len(),
        exports[i].action is Finish,
        is_car_read(exports[i].written, prefix, true, reads),
        0 <= j < reads.len(),
        reads[j].action is Finish,
    ensures
        exports[i].action == ExportActionView::Finish(Ok((source.len(), body_bytes(source)))),
        reads[j].action == CarActionView::Finish(Ok(())),
        reads[j].state.corrupt == 0,
        reads[j].out == source,
{
    assert forall|n: int| 0 <= n < source.len() implies prefix.len() <= (
    #[trigger] source[n]).0.len() by {}
    archives_give_back_a_store(source, prefix);
    lemma_all_present(source);
    exports_write_every_block(source, Set::empty(), prefix.len(), exports, i);
    pieces_read_like_the_whole(exports[i].written, prefix, true, reads, j);
}

/// A frame that names its block by a bare SHA-256 multihash, which is a version 0 CID, is
/// that block: it is taken when the hash is the body's or is not checked, and dropped
/// otherwise.
pub proof fn version_0_blocks_are_read(
    hash: Seq<u8>,
    body: Seq<u8>,
    prefix: Seq<u8>,
    verify: bool,
)
    requires
        hash.len() == 32,
    ensures
        ({
            let mh = seq![0x12u8, 0x20] + hash;
            let block = frame_block(mh + body, prefix, verify);
            &&& !verify || hash == digest::sha256_of(body) ==> block == Some(
                (prefix + b32_encoded(mh), body),
            )
            &&& verify && hash != digest::sha256_of(body) ==> block is None
        }),
{
    reveal(frame_block);
    let mh = seq![0x12u8, 0x20] + hash;
    let f = mh + body;
    assert(f[0] == 0x12 && f[1] == 0x20);
    assert(f.subrange(0, 34) =~= mh);
    assert(f.skip(34) =~= body);
    assert(mh.subrange(2, 34) =~= hash);
}

/// The multihash made of a code and a digest.
pub open spec fn multihash(code: nat, hash: Seq<u8>) -> Seq<u8> {
    varint(code) + varint(hash.len()) + hash
}

proof fn lemma_multihash(code: nat, hash: Seq<u8>, rest: Seq<u8>)
    requires
        code < 0x8000_0000_0000_0000,
        hash.len() < 0x8000_0000_0000_0000,
    ensures
        ({
            let mh = multihash(code, hash);
            let d = varint(code).len();
            let e = varint(hash.len()).len();
            &&& parsed_varint(mh + rest, 9) == Some((code, d))
            &&& parsed_varint((mh + rest).skip(d as int), 9) == Some((hash.len(), e))
            &&& mh.len() == d + e + hash.len()
            &&& d >= 1 && e >= 1
        }),
{
    let mh = multihash(code, hash);
    varint_round_trip(code, varint(hash.len()) + hash + rest);
    varint_round_trip(hash.len(), hash + rest);
    assert(mh + rest =~= varint(code) + (varint(hash.len()) + hash + rest));
    assert((mh + rest).skip(varint(code).len() as int) =~= varint(hash.len()) + (hash + rest));
}

/// A frame that names its block by a version 1 CID is that block, whatever its codec and
/// whichever hash names it: it is taken unless hashes are checked and a SHA-256 is not the
/// body's.
pub proof fn version_1_blocks_are_read(
    codec: nat,
    code: nat,
    hash: Seq<u8>,
    body: Seq<u8>,
    prefix: Seq<u8>,
    verify: bool,
)
    requires
        codec < 0x8000_0000_0000_0000,
        code < 0x8000_0000_0000_0000,
        hash.len() < 0x8000_0000_0000_0000,
    ensures
        ({
            let mh = multihash(code, hash);
            let block = frame_block(seq![0x01u8] + varint(codec) + mh + body, prefix, verify);
            let other = code == 0x12 && hash.len() == 32 && hash != digest::sha256_of(body);
            &&& !verify || !other ==> block == Some((prefix + b32_encoded(mh), body))
            &&& verify && other ==> block is None
        }),
{
    reveal(frame_block);
    let mh = multihash(code, hash);
    let f = seq![0x01u8] + varint(codec) + mh + body;
    let c = varint(codec).len();
    let d = varint(code).len();
    varint_round_trip(codec, mh + body);
    lemma_multihash(code, hash, body);
    assert(f[0] == 1);
    assert(parsed_varint(f, 9) == Some((1nat, 1nat)));
    assert(f.skip(1) =~= varint(codec) + (mh + body));
    assert(f.skip((1 + c) as int) =~= mh + body);
    assert(f.skip((1 + c + d) as int) =~= (mh + body).skip(d as int));
    let end = 1 + c + mh.len();
    assert(parsed_cid(f) == Some((end, 1 + c)));
    assert(f.subrange((1 + c) as int, end as int) =~= mh);
    assert(f.skip(end as int) =~= body);
    lemma_sha256_multihash(code, hash);
    if is_sha256(mh) {
        assert(mh.subrange(2, 34) =~= hash);
    }
}

/// A multihash is a SHA-256 one exactly when its code is that of SHA-256 and its digest has
/// 32 bytes.
proof fn lemma_sha256_multihash(code: nat, hash: Seq<u8>)
    requires
        code < 0x8000_0000_0000_0000,
        hash.len() < 0x8000_0000_0000_0000,
    ensures
        is_sha256(multihash(code, hash)) <==> code == 0x12 && hash.len() == 32,
        code == 0x12 && hash.len() == 32 ==> multihash(code, hash).len() == 34,
{
    let mh = multihash(code, hash);
    let a = varint(code);
    let b = varint(hash.len());
    reveal_with_fuel(varint, 2);
    lemma_varint_starts(code);
    lemma_varint_starts(hash.len());
    assert(mh[0] == a[0]);
    if code < 128 {
        assert(a.len() == 1);
        assert(mh[1] == b[0]);
    } else {
        assert(a[0] >= 128);
    }
}

proof fn lemma_varint_starts(x: nat)
    ensures
        varint(x).len() >= 1,
        x < 128 ==> varint(x) == seq![x as u8],
        x >= 128 ==> varint(x)[0] >= 128,
{
}

/// A frame is dropped exactly when its CID cannot be read, or when hashes are checked and a
/// SHA-256 that names it is not its body's; otherwise it gives a block with the body behind
/// the CID.
pub proof fn frames_are_dropped_for_a_reason(frame: Seq<u8>, prefix: Seq<u8>, verify: bool)
    ensures
        ({
            let block = frame_block(frame, prefix, verify);
            match parsed_cid(frame) {
                None => block is None,
                Some((end, start)) => {
                    let mh = frame.subrange(start as int, end as int);
                    let body = frame.skip(end as int);
                    if verify && is_sha256(mh) && digest::sha256_of(body) != mh.subrange(2, 34) {
                        block is None
                    } else {
                        block == Some((prefix + b32_encoded(mh), body))
                    }
                },
            }
        }),
        // what is read as a CID is one of the two forms
        parsed_cid(frame) matches Some((end, start)) ==> {
            ||| start == 0 && end == 34 && end <= frame.len() && frame[0] == 0x12 && frame[1]
                == 0x20
            ||| parsed_varint(frame, 9) is Some && (parsed_varint(frame, 9)->0).0 == 1
        },
        // and a CID of another version is none
        frame.len() > 0 && frame[0] < 128 && frame[0] != 1 && frame[0] != 0x12 ==> parsed_cid(
            frame,
        ) is None,
{
    reveal(frame_block);
}

/// Frames, each with its length in front.
pub open spec fn framed(frames: Seq<Seq<u8>>) -> Seq<u8>
    decreases frames.len(),
{
    if frames.len() == 0 {
        Seq::empty()
    } else {
        varint(frames[0].len()) + frames[0] + framed(frames.skip(1))
    }
}

/// The blocks of frames, in order, without the frames that are dropped.
pub open spec fn blocks_in(frames: Seq<Seq<u8>>, prefix: Seq<u8>, verify: bool) -> Seq<
    (Seq<u8>, Seq<u8>),
>
    decreases frames.len(),
{
    if frames.len() == 0 {
        Seq::empty()
    } else {
        let rest = blocks_in(frames.skip(1), prefix, verify);
        match frame_block(frames[0], prefix, verify) {
            Some(b) => seq![b] + rest,
            None => rest,
        }
    }
}

proof fn lemma_scan_any(content: Seq<u8>, rest: Seq<u8>, prefix: Seq<u8>, verify: bool)
    requires
        0 < content.len() <= 0x4000_0000,
    ensures
        ({
            let b = varint(content.len()) + content + rest;
            let r = scanned_frames(rest, prefix, verify);
            scanned_frames(b, prefix, verify) == (match frame_block(content, prefix, verify) {
                Some(x) => (seq![x] + r.0, r.1, r.2),
                None => (r.0, r.1 + 1, r.2),
            })
        }),
{
    let len = content.len();
    let b = varint(len) + content + rest;
    varint_round_trip(len, content + rest);
    assert(b =~= varint(len) + (content + rest));
    let n = varint(len).len();
    assert(b.subrange(n as int, (n + len) as int) =~= content);
    assert(b.skip((n + len) as int) =~= rest);
}

proof fn lemma_scan_all(frames: Seq<Seq<u8>>, prefix: Seq<u8>, verify: bool)
    requires
        forall|i: int| 0 <= i < frames.len() ==> 0 < (#[trigger] frames[i]).len() <= 0x4000_0000,
    ensures
        scanned_frames(framed(frames), prefix, verify) == (
            blocks_in(frames, prefix, verify),
            (frames.len() - blocks_in(frames, prefix, verify).len()) as nat,
            None::<domain::ErrorView>,
        ),
        blocks_in(frames, prefix, verify).len() <= frames.len(),
    decreases frames.len(),
{
    if frames.len() > 0 {
        let p = frames.skip(1);
        assert forall|i: int| 0 <= i < p.len() implies 0 < (#[trigger] p[i]).len()
            <= 0x4000_0000 by {
            assert(p[i] == frames[i + 1]);
        }
        lemma_scan_all(p, prefix, verify);
        assert(0 < frames[0].len() <= 0x4000_0000);
        lemma_scan_any(frames[0], framed(p), prefix, verify);
    }
}

/// An archive is read frame by frame, whoever wrote it: behind any header, every frame of a
/// length up to 2^30 gives its block or is counted as dropped, and nothing is left over.
pub proof fn archives_are_read_frame_by_frame(
    header: Seq<u8>,
    frames: Seq<Seq<u8>>,
    car: &[u8],
    prefix: &[u8],
    verify: bool,
    r: DomainResult<CarScan>,
)
    requires
        header.len() <= 0x10_0000,
        header != carv2_pragma(),
        forall|i: int| 0 <= i < frames.len() ==> 0 < (#[trigger] frames[i]).len() <= 0x4000_0000,
        car@ == varint(header.len()) + header + framed(frames),
        call_ensures(car_import, (car, prefix, verify), r),
    ensures
        r is Ok,
        block_views((r->Ok_0).blocks@) == blocks_in(frames, prefix@, verify),
        (r->Ok_0).corrupt + blocks_in(frames, prefix@, verify).len() == frames.len(),
        (r->Ok_0).fault is None,
{
    let n = varint(header.len()).len();
    let end = n + header.len();
    varint_round_trip(header.len(), header + framed(frames));
    assert(car@ =~= varint(header.len()) + (header + framed(frames)));
    assert(car@.subrange(n as int, end as int) =~= header);
    assert(header_end(car@) == Ok::<nat, domain::ErrorView>(end));
    assert(car@.skip(end as int) =~= framed(frames));
    lemma_scan_all(frames, prefix@, verify);
}

/// An archive of another version is refused, and so is one without a header or with a
/// header that is too large.
pub proof fn other_archives_are_refused(
    header: Seq<u8>,
    rest: Seq<u8>,
    car: &[u8],
    prefix: &[u8],
    verify: bool,
    r: DomainResult<CarScan>,
)
    requires
        header.len() < 0x8000_0000_0000_0000,
        car@.len() == 0 || (car@ == varint(header.len()) + header + rest && (header
            == carv2_pragma() || header.len() > 0x10_0000)),
        call_ensures(car_import, (car, prefix, verify), r),
    ensures
        r is Err,
{
    if car@.len() > 0 {
        let n = varint(header.len()).len();
        varint_round_trip(header.len(), header + rest);
        assert(car@ =~= varint(header.len()) + (header + rest));
        if header.len() <= 0x10_0000 {
            assert(car@.subrange(n as int, (n + header.len()) as int) =~= header);
        }
    }
}

proof fn lemma_digit_at(x: nat, n: nat, j: int)
    requires
        0 <= j < n,
    ensures
        b32_digits(x, n).len() == n,
        b32_digits(x, n)[j] == b32_digit((x / pow2((5 * (n - 1 - j)) as nat)) % 32),
    decreases n,
{
    lemma_small_pow2();
    let w = b32_digits(x, n);
    if n == 1 {
        assert(b32_digits(x / 32, 0) =~= Seq::empty());
        assert(x / 1 == x);
    } else if j == n - 1 {
        lemma_digit_at(x / 32, (n - 1) as nat, 0);
        assert(x / 1 == x);
    } else {
        lemma_digit_at(x / 32, (n - 1) as nat, j);
        let q = pow2((5 * (n - 2 - j)) as nat);
        lemma_pow2_pos((5 * (n - 2 - j)) as nat);
        lemma_pow2_adds((5 * (n - 2 - j)) as nat, 5);
        assert(5 * (n - 2 - j) + 5 == 5 * (n - 1 - j));
        vstd::arithmetic::div_mod::lemma_div_denominator(x as int, 32, q as int);
        assert(32 * q == q * 32) by (nonlinear_arith);
        assert(w[j] == b32_digits(x / 32, (n - 1) as nat)[j]);
    }
}

/// Base32 text has a digit for every five bits, the last filled up with zero bits: digit `j`
/// is `A` to `Z` for the numbers below 26 and `2` to `7` for the others.
pub proof fn digits_are_five_bits_each(data: &[u8], r: Vec<u8>, text: String, j: int)
    requires
        call_ensures(base32_bytes, (data,), r),
        call_ensures(base32_nopad, (data,), text),
    ensures
        8 * data@.len() <= 5 * r@.len() < 8 * data@.len() + 5,
        text@.len() == r@.len(),
        0 <= j < r@.len() ==> ({
            let bits = bytes::be_value(data@) * pow2((5 * r@.len() - 8 * data@.len()) as nat);
            let d = (bits / pow2((5 * (r@.len() - 1 - j)) as nat)) % 32;
            &&& r@[j] as nat == if d < 26 {
                65 + d
            } else {
                50 + (d - 26) as nat
            }
            &&& text@[j] == r@[j] as char
        }),
{
    let n = b32_len(data@.len());
    let x = bytes::be_value(data@) * pow2((5 * n - 8 * data@.len()) as nat);
    if n > 0 {
        lemma_digit_at(x, n, 0);
    }
    if 0 <= j < n {
        lemma_digit_at(x, n, j);
    }
}

/// Bytes count as a number with the first byte in front.
pub proof fn first_bytes_weigh_most(s: Seq<u8>, b: u8)
    ensures
        bytes::be_value(Seq::empty()) == 0,
        bytes::be_value(s.push(b)) == 256 * bytes::be_value(s) + b,
{
    assert(s.push(b).drop_last() =~= s);
}

/// Text that holds anything but `A` to `Z` and `2` to `7` is not read; other text gives a byte
/// for every eight bits.
pub proof fn only_digits_are_read(s: &[u8], r: Option<Vec<u8>>)
    requires
        call_ensures(base32_decode_bytes, (s,), r),
    ensures
        r is Some <==> forall|i: int|
            0 <= i < s@.len() ==> (65 <= #[trigger] s@[i] <= 90 || 50 <= s@[i] <= 55),
        r is Some ==> (r->0)@.len() == (5 * s@.len()) / 8,
{
    if r is Some {
        lemma_be_bytes_len(
            b32_number(s@) / pow2((5 * s@.len() - 8 * ((5 * s@.len()) / 8)) as nat),
            ((5 * s@.len()) / 8) as nat,
        );
        assert forall|i: int| 0 <= i < s@.len() implies (65 <= #[trigger] s@[i] <= 90 || 50 <= s@[i]
            <= 55) by {
            assert(b32_value_of(s@[i]) is Some);
        }
    } else if forall|i: int|
        0 <= i < s@.len() ==> (65 <= #[trigger] s@[i] <= 90 || 50 <= s@[i] <= 55) {
        assert forall|i: int| 0 <= i < s@.len() implies b32_value_of(#[trigger] s@[i]) is Some by {}
        assert(all_b32(s@));
    }
}

/// A varint holds seven bits a byte, the low ones first; all bytes but the last are 128 or
/// more, and a number below 128 is its own varint.
pub proof fn varints_hold_seven_bits(x: nat)
    ensures
        x < 128 ==> varint(x) == seq![x as u8],
        x >= 128 ==> ({
            let v = varint(x);
            &&& v.len() == 1 + varint(x / 128).len()
            &&& v[0] as nat == 128 + x % 128
            &&& v.skip(1) == varint(x / 128)
        }),
        x < 0x4000 && x >= 128 ==> varint(x).len() == 2 && varint(x)[1] as nat == x / 128,
{
    if x >= 128 {
        assert(varint(x).skip(1) =~= varint(x / 128));
    }
}

/// A block is exported under the name its key bears: as the frame whose length, raw codec,
/// hash and body stand one after the other.
pub proof fn blocks_are_exported_under_their_names(
    prefix: Seq<u8>,
    mh: Seq<u8>,
    key: &BlockKey,
    prefix_len: usize,
    body: &[u8],
    r: DomainResult<Vec<u8>>,
)
    requires
        prefix.len() == prefix_len,
        call_ensures(export_frame, (key, prefix_len, body), r),
    ensures
        key@ == prefix + b32_encoded(mh) ==> r is Ok && (r->Ok_0)@ == varint(
            2 + mh.len() + body@.len(),
        ) + seq![0x01u8, 0x55u8] + mh + body@,
        key@.len() > prefix_len && !(65 <= key@.last() <= 90 || 50 <= key@.last() <= 55)
            ==> r is Err,
{
    if key@ == prefix + b32_encoded(mh) {
        assert(key@.skip(prefix_len as int) =~= b32_encoded(mh));
        base32_round_trip(mh);
    }
    if key@.len() > prefix_len {
        let s = key@.skip(prefix_len as int);
        assert(s[s.len() - 1] == key@.last());
        if all_b32(s) {
            assert(b32_value_of(s[s.len() - 1]) is Some);
        }
    }
}

/// An archive of no block is its header. An archive of one block more is the archive of the
/// others with that block's frame behind it, and its report counts the block and its bytes.
pub proof fn archives_grow_by_frames(
    few: &Vec<(BlockKey, Vec<u8>)>,
    more: &Vec<(BlockKey, Vec<u8>)>,
    prefix_len: usize,
    a: DomainResult<(Vec<u8>, CarExportReport)>,
    b: DomainResult<(Vec<u8>, CarExportReport)>,
    body: &[u8],
    f: DomainResult<Vec<u8>>,
    header: Vec<u8>,
)
    requires
        more@.len() == few@.len() + 1,
        more@.drop_last() == few@,
        call_ensures(car_export, (few, prefix_len), a),
        call_ensures(car_export, (more, prefix_len), b),
        body@ == more@.last().1@,
        call_ensures(export_frame, (&more@.last().0, prefix_len, body), f),
        call_ensures(car_header, (), header),
    ensures
        few@.len() == 0 ==> a is Ok && (a->Ok_0).0@ == header@ && (a->Ok_0).1.blocks == 0 && (
        a->Ok_0).1.bytes == 0,
        b is Ok <==> a is Ok && f is Ok,
        b is Ok ==> ({
            let x = a->Ok_0;
            let y = b->Ok_0;
            &&& y.0@ == x.0@ + (f->Ok_0)@
            &&& y.1.blocks == x.1.blocks + 1
            &&& y.1.bytes == x.1.bytes + more@.last().1@.len()
        }),
        a is Err ==> b is Err && (b->Err_0)@ == (a->Err_0)@,
        a is Ok && f is Err ==> (b->Err_0)@ == (f->Err_0)@,
{
    let fv = block_views(few@);
    let mv = block_views(more@);
    assert(mv.drop_last() =~= fv) by {
        assert forall|i: int| 0 <= i < fv.len() implies mv[i] == fv[i] by {
            assert(more@.drop_last()[i] == more@[i]);
        }
    }
    assert(mv.last() == (more@.last().0@, more@.last().1@));
    if few@.len() == 0 {
        assert(fv.len() == 0);
        assert(header@ + block_frames(Seq::empty()) =~= header@);
    }
    match named_blocks(mv, prefix_len as nat) {
        Some(items) => {
            let rest = named_blocks(fv, prefix_len as nat)->0;
            assert(items.drop_last() =~= rest);
            assert(export_header() + block_frames(items) =~= export_header() + block_frames(rest)
                + block_frame(items.last().0, items.last().1));
        },
        None => {},
    }
}

/// The header of an exported archive names version 1 and no root.
pub proof fn exported_headers_are_version_1(header: Vec<u8>)
    requires
        call_ensures(car_header, (), header),
    ensures
        header@ == seq![
            17u8,
            0xa2u8,
            0x65u8,
            0x72u8,
            0x6fu8,
            0x6fu8,
            0x74u8,
            0x73u8,
            0x80u8,
            0x67u8,
            0x76u8,
            0x65u8,
            0x72u8,
            0x73u8,
            0x69u8,
            0x6fu8,
            0x6eu8,
            0x01u8,
        ],
{
}

/// Every block of an import is counted once: as one that was there, as one that was written,
/// with its bytes, or as an error.
pub proof fn imported_blocks_are_counted(c: ImportCounts, there: bool, written: bool, len: nat)
    ensures
        ({
            let n = c.noted(there, written, len);
            &&& n.blocks + n.skipped + n.errors == c.blocks + c.skipped + c.errors + 1
            &&& n.corrupt == c.corrupt
            &&& there ==> n.skipped == c.skipped + 1 && n.bytes == c.bytes
            &&& !there && written ==> n.blocks == c.blocks + 1 && n.bytes == c.bytes + len
            &&& !there && !written ==> n.errors == c.errors + 1 && n.bytes == c.bytes
        }),
{
}

/// A frame has at least one byte and at most 2^30, a header at most 2^20; a header is taken
/// unless it is that of the second version.
pub proof fn lengths_have_limits(
    n: u64,
    frame: DomainResult<()>,
    head: DomainResult<()>,
    hdr: &[u8],
    kind: DomainResult<()>,
)
    requires
        call_ensures(check_frame_len, (n,), frame),
        call_ensures(check_header_len, (n,), head),
        call_ensures(check_header, (hdr,), kind),
    ensures
        frame is Ok <==> n >= 1 && n <= 0x4000_0000,
        head is Ok <==> n <= 0x10_0000,
        hdr@.len() != 10 ==> kind is Ok,
        kind is Err <==> hdr@ == seq![
            0xa1u8,
            0x67u8,
            0x76u8,
            0x65u8,
            0x72u8,
            0x73u8,
            0x69u8,
            0x6fu8,
            0x6eu8,
            0x02u8,
        ],
{
}

} // verus!
