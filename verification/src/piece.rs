//! The self-describing envelope of an erasure-coded piece.
//!
//! Layout: `OZEC` | version u8 | k u8 | m u8 | piece index u8 | logical length
//! u64 little-endian, sixteen bytes in all, then the stripe.
use vstd::prelude::*;
use crate::bytes;

verus! {

/// The letters `OZEC`.
pub const EC_MAGIC: [u8; 4] = [0x4f, 0x5a, 0x45, 0x43];

pub const EC_VER: u8 = 1;

pub const EC_HEADER_LEN: usize = 16;

/// A parsed envelope.
#[derive(Clone, Copy, Debug, PartialEq, Eq, Structural)]
pub struct PieceHeader {
    pub k: u8,
    pub m: u8,
    pub piece_idx: u8,
    /// length of the whole object, not of the piece
    pub logical_len: u64,
}

/// `ceil(a / b)` for a positive `b`.
pub open spec fn ceil_div(a: nat, b: nat) -> nat {
    if a == 0 {
        0
    } else {
        ((a - 1) / b as int + 1) as nat
    }
}

impl PieceHeader {
    /// The ranges an envelope has to respect.
    pub open spec fn wf(&self) -> bool {
        self.k > 0 && self.m > 0 && self.piece_idx < self.k + self.m
    }

    /// The length of the stripe that belongs behind this envelope.
    pub open spec fn stripe_len(&self) -> nat {
        ceil_div(self.logical_len as nat, self.k as nat)
    }

    /// The envelope as it is written.
    pub open spec fn encoded(&self) -> Seq<u8> {
        seq![0x4fu8, 0x5a, 0x45, 0x43, EC_VER, self.k, self.m, self.piece_idx] + bytes::le_bytes(
            self.logical_len as nat,
            8,
        )
    }
}

/// Reading of a body as a piece: a header whose fields are in range and whose
/// object length fits the stripe that follows.
pub open spec fn parsed_piece(body: Seq<u8>) -> Option<PieceHeader> {
    if body.len() < 16 || body.subrange(0, 4) != seq![0x4fu8, 0x5a, 0x45, 0x43] || body[4]
        != EC_VER {
        None
    } else {
        let h = PieceHeader {
            k: body[5],
            m: body[6],
            piece_idx: body[7],
            logical_len: bytes::le_value(body.subrange(8, 16)) as u64,
        };
        if h.wf() && body.len() - 16 == h.stripe_len() {
            Some(h)
        } else {
            None
        }
    }
}

pub fn encode_piece_header(h: &PieceHeader) -> (b: [u8; 16])
    ensures
        b@ == h.encoded(),
{
    let l: u64 = h.logical_len;
    let b: [u8; 16] = [
        0x4f,
        0x5a,
        0x45,
        0x43,
        EC_VER,
        h.k,
        h.m,
        h.piece_idx,
        (l % 0x100) as u8,
        (l / 0x100 % 0x100) as u8,
        (l / 0x1_0000 % 0x100) as u8,
        (l / 0x100_0000 % 0x100) as u8,
        (l / 0x1_0000_0000 % 0x100) as u8,
        (l / 0x100_0000_0000 % 0x100) as u8,
        (l / 0x1_0000_0000_0000 % 0x100) as u8,
        (l / 0x100_0000_0000_0000 % 0x100) as u8,
    ];
    proof {
        lemma_eight_bytes(l);
        assert(b@ =~= h.encoded());
    }
    b
}

proof fn lemma_eight_bytes(l: u64)
    ensures
        bytes::le_bytes(l as nat, 8) == seq![
            (l % 0x100) as u8,
            (l / 0x100 % 0x100) as u8,
            (l / 0x1_0000 % 0x100) as u8,
            (l / 0x100_0000 % 0x100) as u8,
            (l / 0x1_0000_0000 % 0x100) as u8,
            (l / 0x100_0000_0000 % 0x100) as u8,
            (l / 0x1_0000_0000_0000 % 0x100) as u8,
            (l / 0x100_0000_0000_0000 % 0x100) as u8,
        ],
{
    reveal_with_fuel(bytes::le_bytes, 9);
    let x = l as nat;
    assert(x / 0x100 / 0x100 == x / 0x1_0000);
    assert(x / 0x1_0000 / 0x100 == x / 0x100_0000);
    assert(x / 0x100_0000 / 0x100 == x / 0x1_0000_0000);
    assert(x / 0x1_0000_0000 / 0x100 == x / 0x100_0000_0000);
    assert(x / 0x100_0000_0000 / 0x100 == x / 0x1_0000_0000_0000);
    assert(x / 0x1_0000_0000_0000 / 0x100 == x / 0x100_0000_0000_0000);
}

/// Reads the envelope of a piece; `None` when the body is not a piece.
pub fn parse_piece_header(body: &[u8]) -> (r: Option<PieceHeader>)
    ensures
        r == parsed_piece(body@),
{
    if body.len() < EC_HEADER_LEN {
        return None;
    }
    let magic = EC_MAGIC;
    assert(magic@ =~= seq![0x4fu8, 0x5a, 0x45, 0x43]);
    let head = bytes::copy_range(body, 0, 4);
    if !bytes::same_bytes(head.as_slice(), magic.as_slice()) || body[4] != EC_VER {
        return None;
    }
    proof {
        bytes::lemma_pow256_values();
    }
    let logical_len: u64 = bytes::read_le(body, 8, 8);
    let h = PieceHeader { k: body[5], m: body[6], piece_idx: body[7], logical_len };
    if h.k == 0 || h.m == 0 || h.piece_idx as usize >= h.k as usize + h.m as usize {
        return None;
    }
    let stripe: u64 = (body.len() - EC_HEADER_LEN) as u64;
    let k: u64 = h.k as u64;
    let want: u64 = if logical_len == 0 {
        0
    } else {
        (logical_len - 1) / k + 1
    };
    proof {
        if logical_len > 0 {
            assert((logical_len - 1) / k as int <= logical_len - 1) by (nonlinear_arith)
                requires
                    k >= 1,
                    logical_len > 0,
            ;
        }
    }
    if stripe != want {
        return None;
    }
    Some(h)
}

/// An envelope in range, followed by a stripe of the right length, reads back
/// as that envelope.
pub proof fn piece_header_round_trip(h: PieceHeader, stripe: Seq<u8>)
    requires
        h.wf(),
        stripe.len() == h.stripe_len(),
    ensures
        h.encoded().len() == 16,
        parsed_piece(h.encoded() + stripe) == Some(h),
        (h.encoded() + stripe).subrange(16, (h.encoded() + stripe).len() as int) == stripe,
{
    bytes::lemma_pow256_values();
    bytes::lemma_le_round_trip(h.logical_len as nat, 8);
    let body = h.encoded() + stripe;
    assert(body.subrange(0, 4) =~= seq![0x4fu8, 0x5a, 0x45, 0x43]);
    assert(body.subrange(8, 16) =~= bytes::le_bytes(h.logical_len as nat, 8));
    assert(body.subrange(16, body.len() as int) =~= stripe);
}

/// A piece's envelope is sixteen bytes: a name, a version, the numbers of data and parity
/// pieces, the piece's own number, and the object's length with the low byte first.
pub proof fn envelopes_have_their_fields(h: &PieceHeader, b: [u8; 16], i: nat)
    requires
        call_ensures(encode_piece_header, (h,), b),
        i < 8,
    ensures
        b@.len() == 16,
        b@[0] == 0x4f && b@[1] == 0x5a && b@[2] == 0x45 && b@[3] == 0x43,
        b@[4] == 1,
        b@[5] == h.k && b@[6] == h.m && b@[7] == h.piece_idx,
        b@[(8 + i) as int] as nat == (h.logical_len as nat / bytes::pow256(i)) % 256,
{
    bytes::low_bytes_come_first(h.logical_len as nat, 8, i);
}

/// A body is a piece exactly when its envelope is in order and the stripe behind it is as
/// long as its share of the object: a share more would be too much, a share less too little.
pub proof fn pieces_are_recognised(body: &[u8], r: Option<PieceHeader>)
    requires
        body@.len() <= u64::MAX,
        call_ensures(parse_piece_header, (body,), r),
    ensures
        r is Some ==> ({
            let h = r->0;
            let stripe = body@.len() - 16;
            &&& body@.len() >= 16
            &&& body@[0] == 0x4f && body@[1] == 0x5a && body@[2] == 0x45 && body@[3] == 0x43
            &&& body@[4] == 1
            &&& h.k == body@[5] && h.m == body@[6] && h.piece_idx == body@[7]
            &&& h.k >= 1 && h.m >= 1 && h.piece_idx < h.k + h.m
            &&& h.logical_len as nat == bytes::le_value(body@.subrange(8, 16))
            &&& stripe * h.k >= h.logical_len
            &&& stripe > 0 ==> (stripe - 1) * h.k < h.logical_len
        }),
        body@.len() < 16 ==> r is None,
        body@.len() >= 16 && r is None ==> ({
            let k = body@[5] as int;
            let n = bytes::le_value(body@.subrange(8, 16)) as int;
            let stripe = body@.len() - 16;
            ||| body@[0] != 0x4f || body@[1] != 0x5a || body@[2] != 0x45 || body@[3] != 0x43
            ||| body@[4] != 1
            ||| k == 0 || body@[6] == 0 || body@[7] >= k + body@[6]
            ||| stripe * k < n
            ||| stripe > 0 && (stripe - 1) * k >= n
        }),
{
    let b = body@;
    if b.len() >= 16 {
        let k = b[5] as int;
        let n = bytes::le_value(b.subrange(8, 16)) as int;
        let stripe = b.len() - 16;
        bytes::lemma_pow256_values();
        bytes::lemma_le_value_bound(b.subrange(8, 16));
        let magic = seq![0x4fu8, 0x5a, 0x45, 0x43];
        if b[0] == 0x4f && b[1] == 0x5a && b[2] == 0x45 && b[3] == 0x43 {
            assert(b.subrange(0, 4) =~= magic);
        }
        if b.subrange(0, 4) == magic {
            assert(b[0] == b.subrange(0, 4)[0]);
            assert(b[1] == b.subrange(0, 4)[1]);
            assert(b[2] == b.subrange(0, 4)[2]);
            assert(b[3] == b.subrange(0, 4)[3]);
        }
        if k > 0 {
            lemma_shares(stripe, k, n);
        }
    }
}

/// How many parts of `k` a length makes.
proof fn lemma_shares(stripe: int, k: int, n: int)
    requires
        stripe >= 0,
        k > 0,
        n >= 0,
    ensures
        (stripe == ceil_div(n as nat, k as nat)) <==> (stripe * k >= n && (stripe > 0 ==> (stripe
            - 1) * k < n)),
{
    if n > 0 {
        let q = (n - 1) / k;
        assert(q * k <= n - 1 < (q + 1) * k && q >= 0) by (nonlinear_arith)
            requires
                k > 0,
                n > 0,
                q == (n - 1) / k,
        ;
        if stripe == q + 1 {
            assert((stripe - 1) * k == q * k && stripe * k == (q + 1) * k);
        } else if stripe > q + 1 {
            assert((stripe - 1) * k >= (q + 1) * k) by (nonlinear_arith)
                requires
                    stripe - 1 >= q + 1,
                    k > 0,
            ;
        } else {
            assert(stripe * k <= q * k) by (nonlinear_arith)
                requires
                    stripe <= q,
                    k > 0,
            ;
        }
    } else {
        assert(stripe > 0 ==> (stripe - 1) * k >= 0) by (nonlinear_arith)
            requires
                k > 0,
        ;
        assert(stripe * k >= 0) by (nonlinear_arith)
            requires
                k > 0,
                stripe >= 0,
        ;
    }
}

} // verus!
