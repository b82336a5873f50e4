//! Erasure coding of objects into self-describing pieces.
//!
//! An object is cut into `k` stripes of equal length (the last ones padded
//! with zeros); a Reed-Solomon code adds `m` parity stripes.  Any `k` of the
//! `k + m` pieces give the object back.
use vstd::prelude::*;
use vstd::string::*;
use reed_solomon_erasure::galois_8::ReedSolomon;
use crate::bytes;
use crate::domain::{DomainError, DomainResult};
use crate::domain;
use crate::piece::{encode_piece_header, parse_piece_header, PieceHeader, EC_HEADER_LEN};
use crate::piece;
use crate::text;

verus! {

/// Shape of the erasure code.
#[derive(Clone, Copy, Debug, PartialEq, Eq, Structural)]
pub struct EcConfig {
    /// data pieces
    pub data: usize,
    /// parity pieces: as many losses are survived
    pub parity: usize,
    /// smaller bodies stay mirrored
    pub min_size: usize,
    /// piece writes that have to succeed before a put is acknowledged
    pub write_quorum: usize,
}

impl Default for EcConfig {
    fn default() -> (r: Self)
        ensures
            r.data == 4,
            r.parity == 2,
            r.min_size == 64 * 1024,
            r.write_quorum == 5,
    {
        EcConfig { data: 4, parity: 2, min_size: 65536, write_quorum: 5 }
    }
}

impl EcConfig {
    /// Pieces in all.
    pub fn total(&self) -> (r: usize)
        requires
            self.data + self.parity <= usize::MAX,
        ensures
            r == self.data + self.parity,
    {
        self.data + self.parity
    }
}

/// Each vector taken by its view.
pub open spec fn views(v: Seq<Vec<u8>>) -> Seq<Seq<u8>> {
    Seq::new(v.len(), |i: int| v[i]@)
}

/// Each slot taken by its view.
pub open spec fn slot_views(v: Seq<Option<Vec<u8>>>) -> Seq<Option<Seq<u8>>> {
    Seq::new(
        v.len(),
        |i: int|
            match v[i] {
                Some(p) => Some(p@),
                None => None,
            },
    )
}

/// How many slots are filled.
pub open spec fn present(slots: Seq<Option<Seq<u8>>>) -> nat
    decreases slots.len(),
{
    if slots.len() == 0 {
        0
    } else {
        present(slots.drop_last()) + if slots.last() is Some {
            1nat
        } else {
            0nat
        }
    }
}

/// Whether every filled slot agrees with the corresponding entry of `all`.
pub open spec fn slots_from(slots: Seq<Option<Seq<u8>>>, all: Seq<Seq<u8>>) -> bool {
    slots.len() == all.len() && forall|i: int|
        #![trigger slots[i]]
        0 <= i < slots.len() ==> match slots[i] {
            Some(p) => p == all[i],
            None => true,
        }
}

/// Whether all filled slots hold the same positive number of bytes.
pub open spec fn even_slots(slots: Seq<Option<Seq<u8>>>) -> bool {
    &&& forall|i: int|
        #![trigger slots[i]]
        0 <= i < slots.len() && slots[i] is Some ==> slots[i]->0.len() > 0
    &&& forall|i: int, j: int|
        #![trigger slots[i], slots[j]]
        0 <= i < slots.len() && 0 <= j < slots.len() && slots[i] is Some && slots[j] is Some
            ==> slots[i]->0.len() == slots[j]->0.len()
}

/// `k` stripes of one positive length.
pub open spec fn even_stripes(data: Seq<Seq<u8>>, k: nat) -> bool {
    &&& data.len() == k
    &&& forall|i: int| 0 <= i < k ==> (#[trigger] data[i]).len() > 0
    &&& forall|i: int, j: int|
        0 <= i < k && 0 <= j < k ==> (#[trigger] data[i]).len() == (#[trigger] data[j]).len()
}

/// Shapes for which a Reed-Solomon code over bytes exists.
pub open spec fn codec_exists(k: nat, m: nat) -> bool {
    k > 0 && m > 0 && k + m <= 256
}

/// Why no code exists for a shape.
pub open spec fn codec_refusal(k: nat, m: nat) -> Seq<char> {
    if k == 0 {
        "The number of provided data shards is smaller than the one in codec"@
    } else if m == 0 {
        "The number of provided parity shards is smaller than the one in codec"@
    } else {
        "The number of provided shards is greater than the one in codec"@
    }
}

/// The parity stripes that the Reed-Solomon code with `k` data and `m` parity
/// shards computes for the data stripes `data`.
pub uninterp spec fn rs_parity(k: nat, m: nat, data: Seq<Seq<u8>>) -> Seq<Seq<u8>>;

/// What `ReedSolomon::reconstruct` leaves in the slots, or the text of its error.
pub uninterp spec fn rs_reconstructed(
    k: nat,
    m: nat,
    slots: Seq<Option<Seq<u8>>>,
) -> Result<Seq<Option<Seq<u8>>>, Seq<char>>;

/// `ReedSolomon::new`: a code exists exactly for a positive number of data
/// shards and of parity shards, at most 256 together; otherwise the error says
/// which of these failed.
#[verifier::external_body]
fn rs_new(k: usize, m: usize) -> (r: Result<(), String>)
    requires
        k + m <= usize::MAX,
    ensures
        r is Ok <==> codec_exists(k as nat, m as nat),
        r matches Err(t) ==> t@ == codec_refusal(k as nat, m as nat),
{
    ReedSolomon::new(k, m).map(|_c| ()).map_err(|e| e.to_string())
}

/// `ReedSolomon::encode` on `k + m` shards of one positive length: the data
/// shards stay, the parity shards are overwritten by stripes of that length,
/// which depend on the data shards alone.
#[verifier::external_body]
fn rs_encode(k: usize, m: usize, shards: &mut Vec<Vec<u8>>) -> (r: Result<(), String>)
    requires
        codec_exists(k as nat, m as nat),
        old(shards)@.len() == k + m,
        old(shards)@[0]@.len() > 0,
        forall|i: int|
            #![trigger old(shards)@[i]]
            0 <= i < k + m ==> old(shards)@[i]@.len() == old(shards)@[0]@.len(),
    ensures
        r is Ok,
        views(final(shards)@) == views(old(shards)@).subrange(0, k as int) + rs_parity(
            k as nat,
            m as nat,
            views(old(shards)@).subrange(0, k as int),
        ),
        final(shards)@.len() == k + m,
        forall|i: int|
            #![trigger final(shards)@[i]]
            0 <= i < k + m ==> final(shards)@[i]@.len() == old(shards)@[0]@.len(),
{
    ReedSolomon::new(k, m).and_then(|c| c.encode(shards)).map_err(|e| e.to_string())
}

/// `ReedSolomon::reconstruct` on `k + m` slots.  With at least `k` slots filled,
/// all of one positive length, every slot is filled afterwards and the filled
/// ones keep their bytes; stripes that came out of an encoding give back all of
/// that encoding.  It fails when the filled slots are uneven or empty.
#[verifier::external_body]
fn rs_reconstruct(k: usize, m: usize, slots: &mut Vec<Option<Vec<u8>>>) -> (r: Result<(), String>)
    requires
        codec_exists(k as nat, m as nat),
        old(slots)@.len() == k + m,
        present(slot_views(old(slots)@)) >= k,
    ensures
        r is Ok <==> even_slots(slot_views(old(slots)@)),
        rs_reconstructed(k as nat, m as nat, slot_views(old(slots)@)) == match r {
            Ok(_) => Ok::<Seq<Option<Seq<u8>>>, Seq<char>>(slot_views(final(slots)@)),
            Err(t) => Err(t@),
        },
        final(slots)@.len() == k + m,
        r is Ok ==> forall|i: int|
            #![trigger final(slots)@[i]]
            0 <= i < k + m ==> final(slots)@[i] is Some,
        r is Ok ==> forall|i: int|
            #![trigger slot_views(final(slots)@)[i]]
            0 <= i < k + m && slot_views(old(slots)@)[i] is Some ==> slot_views(final(slots)@)[i]
                == slot_views(old(slots)@)[i],
        r is Ok ==> forall|data: Seq<Seq<u8>>|
            #![trigger rs_parity(k as nat, m as nat, data)]
            even_stripes(data, k as nat) && slots_from(
                slot_views(old(slots)@),
                data + rs_parity(k as nat, m as nat, data),
            ) ==> slots_from(slot_views(final(slots)@), data + rs_parity(k as nat, m as nat, data)),
{
    ReedSolomon::new(k, m).and_then(|c| c.reconstruct(slots)).map_err(|e| e.to_string())
}

/// The byte of `data` at `at`, zero behind its end.
pub open spec fn padded_at(data: Seq<u8>, at: int) -> u8 {
    if 0 <= at < data.len() {
        data[at]
    } else {
        0
    }
}

/// Length of each stripe of an object of `len` bytes.
pub open spec fn stripe_len(len: nat, k: nat) -> nat {
    piece::ceil_div(len, k)
}

/// Data stripe `i`: bytes `i * s .. (i + 1) * s` of the zero-padded object.
pub open spec fn data_stripe(data: Seq<u8>, s: nat, i: int) -> Seq<u8> {
    Seq::new(s, |j: int| padded_at(data, i * s + j))
}

/// All data stripes.
pub open spec fn data_stripes(data: Seq<u8>, k: nat) -> Seq<Seq<u8>> {
    Seq::new(k, |i: int| data_stripe(data, stripe_len(data.len(), k), i))
}

/// The parity stripes of an object; those of an empty one are empty.
pub open spec fn parity_stripes(data: Seq<u8>, k: nat, m: nat) -> Seq<Seq<u8>> {
    if data.len() == 0 {
        Seq::new(m, |i: int| Seq::empty())
    } else {
        rs_parity(k, m, data_stripes(data, k))
    }
}

/// Data and parity stripes.
pub open spec fn all_stripes(data: Seq<u8>, k: nat, m: nat) -> Seq<Seq<u8>> {
    data_stripes(data, k) + parity_stripes(data, k, m)
}

/// The envelope of piece `i`.
pub open spec fn piece_header(len: nat, k: nat, m: nat, i: int) -> PieceHeader {
    PieceHeader { k: k as u8, m: m as u8, piece_idx: i as u8, logical_len: len as u64 }
}

/// The pieces of an object: each stripe behind its envelope.
pub open spec fn ec_pieces(data: Seq<u8>, k: nat, m: nat) -> Seq<Seq<u8>> {
    Seq::new(
        k + m,
        |i: int| piece_header(data.len(), k, m, i).encoded() + all_stripes(data, k, m)[i],
    )
}

/// The parity stripes of the object are as many and as long as they have to be.
pub open spec fn parity_fits(data: Seq<u8>, k: nat, m: nat) -> bool {
    let parity = parity_stripes(data, k, m);
    parity.len() == m && forall|i: int|
        0 <= i < m ==> (#[trigger] parity[i]).len() == stripe_len(data.len(), k)
}

/// The concatenation of the filled slots among the first `n`.
pub open spec fn joined(slots: Seq<Option<Seq<u8>>>, n: nat) -> Seq<u8>
    decreases n,
{
    if n == 0 {
        Seq::empty()
    } else {
        let rest = joined(slots, (n - 1) as nat);
        match slots[n - 1] {
            Some(p) => rest + p,
            None => rest,
        }
    }
}

/// At most the first `n` bytes.
pub open spec fn clipped(s: Seq<u8>, n: nat) -> Seq<u8> {
    if s.len() <= n {
        s
    } else {
        s.subrange(0, n as int)
    }
}

/// What is wrong with slot `i`, if anything.
pub open spec fn slot_fault(i: nat, slot: Option<Seq<u8>>) -> Option<domain::ErrorView> {
    match slot {
        None => None,
        Some(p) => match piece::parsed_piece(p) {
            None => Some(
                domain::ErrorView::IntegrityViolation(
                    "piece "@ + text::dec_chars(i) + ": bad EC header"@,
                ),
            ),
            Some(h) => if h.piece_idx == i {
                None
            } else {
                Some(
                    domain::ErrorView::IntegrityViolation(
                        "piece slot "@ + text::dec_chars(i) + " holds idx "@ + text::dec_chars(
                            h.piece_idx as nat,
                        ),
                    ),
                )
            },
        },
    }
}

/// The fault of the first faulty slot among the first `n`.
pub open spec fn first_fault(slots: Seq<Option<Seq<u8>>>, n: nat) -> Option<domain::ErrorView>
    decreases n,
{
    if n == 0 {
        None
    } else {
        match first_fault(slots, (n - 1) as nat) {
            Some(e) => Some(e),
            None => slot_fault((n - 1) as nat, slots[n - 1]),
        }
    }
}

/// The object length the last filled slot among the first `n` names.
pub open spec fn named_len(slots: Seq<Option<Seq<u8>>>, n: nat) -> Option<u64>
    decreases n,
{
    if n == 0 {
        None
    } else {
        match slots[n - 1] {
            Some(p) => match piece::parsed_piece(p) {
                Some(h) => Some(h.logical_len),
                None => named_len(slots, (n - 1) as nat),
            },
            None => named_len(slots, (n - 1) as nat),
        }
    }
}

/// The slots without their envelopes.
pub open spec fn bare(slots: Seq<Option<Seq<u8>>>) -> Seq<Option<Seq<u8>>> {
    Seq::new(
        slots.len(),
        |i: int|
            match slots[i] {
                Some(p) => Some(p.subrange(16, p.len() as int)),
                None => None,
            },
    )
}

/// Whether the first `n` slots are all filled.
pub open spec fn all_filled(slots: Seq<Option<Seq<u8>>>, n: nat) -> bool {
    forall|i: int| 0 <= i < n ==> (#[trigger] slots[i]) is Some
}

/// The text of a refused code shape.
pub open spec fn init_error(k: nat, m: nat) -> Seq<char> {
    "reed-solomon init ("@ + text::dec_chars(k) + "+"@ + text::dec_chars(m) + "): "@
        + codec_refusal(k, m)
}

/// The object that the slots spell, or why they spell none.
pub open spec fn ec_decoded(slots: Seq<Option<Seq<u8>>>, k: nat, m: nat) -> Result<
    Seq<u8>,
    domain::ErrorView,
> {
    if slots.len() != k + m {
        Err(
            domain::ErrorView::Io(
                "ec decode: want "@ + text::dec_chars(k + m) + " slots, got "@ + text::dec_chars(
                    slots.len(),
                ),
            ),
        )
    } else if first_fault(slots, k + m) is Some {
        Err(first_fault(slots, k + m)->0)
    } else if named_len(slots, k + m) is None {
        Err(domain::ErrorView::NotFound)
    } else if present(slots) < k {
        Err(
            domain::ErrorView::Io(
                "ec decode: only "@ + text::dec_chars(present(slots)) + " of "@ + text::dec_chars(k)
                    + " pieces"@,
            ),
        )
    } else {
        let len = named_len(slots, k + m)->0 as nat;
        if len == 0 {
            Ok(Seq::empty())
        } else if all_filled(slots, k) {
            Ok(clipped(joined(bare(slots), k), len))
        } else if !codec_exists(k, m) {
            Err(domain::ErrorView::Io(init_error(k, m)))
        } else {
            match rs_reconstructed(k, m, bare(slots)) {
                Ok(full) => Ok(clipped(joined(full, k), len)),
                Err(t) => Err(domain::ErrorView::Io("rs reconstruct: "@ + t)),
            }
        }
    }
}

/// The error for a refused code shape.
fn init_failure(k: usize, m: usize, why: String) -> (r: DomainError)
    requires
        why@ == codec_refusal(k as nat, m as nat),
    ensures
        r@ == domain::ErrorView::Io(init_error(k as nat, m as nat)),
{
    let mut t = "reed-solomon init (".to_owned();
    text::push_dec(&mut t, k as u64);
    t.append("+");
    text::push_dec(&mut t, m as u64);
    t.append("): ");
    t.append(why.as_str());
    DomainError::Io(t)
}

proof fn lemma_stripe_len(len: nat, k: nat)
    requires
        k > 0,
    ensures
        len > 0 ==> stripe_len(len, k) > 0,
        len <= k * stripe_len(len, k),
        stripe_len(len, k) <= len,
{
    if len > 0 {
        let q = (len - 1) / k as int;
        assert(len - 1 < k * (q + 1) && q >= 0 && q <= len - 1) by (nonlinear_arith)
            requires
                k > 0,
                len > 0,
                q == (len - 1) / k as int,
        ;
        assert(stripe_len(len, k) == q + 1);
    }
}

/// Cuts a body into `k + m` self-describing pieces.
pub fn ec_encode(data: &[u8], cfg: &EcConfig) -> (r: DomainResult<Vec<Vec<u8>>>)
    requires
        cfg.data > 0,
        cfg.data + cfg.parity <= usize::MAX,
    ensures
        r is Ok <==> codec_exists(cfg.data as nat, cfg.parity as nat),
        r matches Ok(pieces) ==> {
            &&& views(pieces@) == ec_pieces(data@, cfg.data as nat, cfg.parity as nat)
            &&& parity_fits(data@, cfg.data as nat, cfg.parity as nat)
        },
        r matches Err(e) ==> e@ == domain::ErrorView::Io(
            init_error(cfg.data as nat, cfg.parity as nat),
        ),
{
    let k: usize = cfg.data;
    let m: usize = cfg.parity;
    match rs_new(k, m) {
        Ok(_) => {},
        Err(why) => {
            return Err(init_failure(k, m, why));
        },
    }
    let len: usize = data.len();
    let stripe: usize = if len == 0 {
        0
    } else {
        (len - 1) / k + 1
    };
    proof {
        lemma_stripe_len(len as nat, k as nat);
        if len > 0 {
            assert((len - 1) / k as int <= len - 1) by (nonlinear_arith)
                requires
                    k >= 1,
                    len >= 1,
            ;
        }
    }
    assert(stripe == stripe_len(len as nat, k as nat));
    let mut shards: Vec<Vec<u8>> = Vec::new();
    // `at` is the position of the next byte to copy, kept at the end of `data`
    let mut at: usize = 0;
    let mut i: usize = 0;
    while i < k + m
        invariant
            codec_exists(k as nat, m as nat),
            len == data@.len(),
            stripe == stripe_len(len as nat, k as nat),
            i <= k + m,
            shards@.len() == i,
            i < k ==> at == (if i * stripe <= len {
                i * stripe
            } else {
                len as int
            }),
            forall|a: int| 0 <= a < i ==> (#[trigger] shards@[a])@.len() == stripe,
            forall|a: int|
                0 <= a < i && a < k ==> (#[trigger] shards@[a])@ == data_stripe(
                    data@,
                    stripe as nat,
                    a,
                ),
        decreases k + m - i,
    {
        let mut one: Vec<u8> = Vec::new();
        let mut j: usize = 0;
        while j < stripe
            invariant
                len == data@.len(),
                j <= stripe,
                one@.len() == j,
                i < k ==> at == (if i * stripe + j <= len {
                    i * stripe + j
                } else {
                    len as int
                }),
                i < k ==> forall|b: int|
                    0 <= b < j ==> #[trigger] one@[b] == padded_at(data@, i * stripe + b),
            decreases stripe - j,
        {
            if i < k && at < len {
                one.push(data[at]);
                at = at + 1;
            } else {
                one.push(0);
            }
            j = j + 1;
        }
        proof {
            if i < k {
                assert(one@ =~= data_stripe(data@, stripe as nat, i as int));
                assert((i + 1) * stripe == i * stripe + stripe) by (nonlinear_arith);
            }
        }
        shards.push(one);
        i = i + 1;
    }
    let ghost cut = views(shards@).subrange(0, k as int);
    assert(cut =~= data_stripes(data@, k as nat));
    if len > 0 {
        match rs_encode(k, m, &mut shards) {
            Ok(_) => {},
            Err(why) => {
                let mut t = "rs encode: ".to_owned();
                t.append(why.as_str());
                return Err(DomainError::Io(t));
            },
        }
    }
    let ghost whole = all_stripes(data@, k as nat, m as nat);
    proof {
        if len == 0 {
            assert forall|a: int| 0 <= a < k + m implies #[trigger] views(shards@)[a]
                == whole[a] by {
                assert(shards@[a]@.len() == 0);
                assert(whole[a].len() == 0);
                assert(views(shards@)[a] =~= whole[a]);
            }
        }
        assert(views(shards@) =~= whole);
    }
    assert(parity_fits(data@, k as nat, m as nat)) by {
        let parity = parity_stripes(data@, k as nat, m as nat);
        assert(whole.len() == k + m);
        assert forall|a: int| 0 <= a < m implies (#[trigger] parity[a]).len() == stripe by {
            assert(parity[a] == whole[k + a]);
            assert(whole[k + a] == shards@[k + a]@);
        }
    }
    let mut pieces: Vec<Vec<u8>> = Vec::new();
    let logical_len: u64 = len as u64;
    let mut n: usize = 0;
    while n < shards.len()
        invariant
            codec_exists(k as nat, m as nat),
            len == data@.len(),
            logical_len == len,
            shards@.len() == k + m,
            n <= k + m,
            whole == all_stripes(data@, k as nat, m as nat),
            views(shards@) == whole,
            pieces@.len() == n,
            forall|a: int|
                0 <= a < n ==> (#[trigger] pieces@[a])@ == ec_pieces(
                    data@,
                    k as nat,
                    m as nat,
                )[a],
        decreases k + m - n,
    {
        let h = PieceHeader { k: k as u8, m: m as u8, piece_idx: n as u8, logical_len };
        let head = encode_piece_header(&h);
        let mut one: Vec<u8> = Vec::new();
        bytes::push_all(&mut one, head.as_slice());
        bytes::push_all(&mut one, shards[n].as_slice());
        proof {
            assert(whole[n as int] == shards@[n as int]@);
            assert(one@ =~= h.encoded() + whole[n as int]);
        }
        pieces.push(one);
        n = n + 1;
    }
    assert(views(pieces@) =~= ec_pieces(data@, k as nat, m as nat));
    Ok(pieces)
}

/// Concatenates the first `k` stripes and cuts the padding off.
pub fn join_stripes(stripes: &Vec<Option<Vec<u8>>>, k: usize, len: u64) -> (r: Vec<u8>)
    requires
        k <= stripes@.len(),
    ensures
        r@ == clipped(joined(slot_views(stripes@), k as nat), len as nat),
{
    let ghost slots = slot_views(stripes@);
    let mut out: Vec<u8> = Vec::new();
    let mut i: usize = 0;
    while i < k
        invariant
            i <= k <= stripes@.len(),
            slots == slot_views(stripes@),
            out@ == joined(slots, i as nat),
        decreases k - i,
    {
        assert(slots[i as int] == match stripes@[i as int] {
            Some(p) => Some(p@),
            None => None,
        });
        match &stripes[i] {
            Some(p) => {
                bytes::push_all(&mut out, p.as_slice());
            },
            None => {},
        }
        i = i + 1;
    }
    if out.len() as u64 > len {
        out.truncate(len as usize);
        assert(out@ =~= clipped(joined(slots, k as nat), len as nat));
    }
    out
}

proof fn lemma_present_update(slots: Seq<Option<Seq<u8>>>, n: int)
    requires
        0 < n <= slots.len(),
    ensures
        present(slots.subrange(0, n)) == present(slots.subrange(0, n - 1)) + if slots[n - 1] is Some {
            1nat
        } else {
            0nat
        },
{
    assert(slots.subrange(0, n).drop_last() =~= slots.subrange(0, n - 1));
}

proof fn lemma_bare_present(slots: Seq<Option<Seq<u8>>>)
    ensures
        present(bare(slots)) == present(slots),
    decreases slots.len(),
{
    if slots.len() > 0 {
        lemma_bare_present(slots.drop_last());
        assert(bare(slots).drop_last() =~= bare(slots.drop_last()));
    }
}

/// The first `n` stripes of an object are the first `n * s` bytes of the
/// zero-padded object.
proof fn lemma_joined_data(slots: Seq<Option<Seq<u8>>>, data: Seq<u8>, k: nat, n: nat)
    requires
        n <= k,
        k <= slots.len(),
        forall|i: int|
            0 <= i < k ==> #[trigger] slots[i] == Some(
                data_stripe(data, stripe_len(data.len(), k), i),
            ),
    ensures
        joined(slots, n) == Seq::new(
            n * stripe_len(data.len(), k),
            |j: int| padded_at(data, j),
        ),
    decreases n,
{
    let s = stripe_len(data.len(), k);
    if n > 0 {
        let b = (n - 1) as nat;
        lemma_joined_data(slots, data, k, b);
        assert(slots[n - 1] == Some(data_stripe(data, s, n - 1)));
        assert(n * s == b * s + s) by (nonlinear_arith)
            requires
                n == b + 1,
        ;
        assert(joined(slots, n) =~= Seq::new(n * s, |j: int| padded_at(data, j)));
    } else {
        assert(joined(slots, 0) =~= Seq::new((0 * s) as nat, |j: int| padded_at(data, j)));
    }
}

proof fn lemma_joined_is_data(slots: Seq<Option<Seq<u8>>>, data: Seq<u8>, k: nat, m: nat)
    requires
        k > 0,
        slots.len() == k + m,
        slots_from(slots, all_stripes(data, k, m)),
        all_filled(slots, k),
    ensures
        clipped(joined(slots, k), data.len()) == data,
{
    let s = stripe_len(data.len(), k);
    assert forall|i: int| 0 <= i < k implies #[trigger] slots[i] == Some(
        data_stripe(data, s, i),
    ) by {
        assert(all_stripes(data, k, m)[i] == data_stripes(data, k)[i]);
    }
    lemma_joined_data(slots, data, k, k);
    lemma_stripe_len(data.len(), k);
    assert(k * s == s * k) by (nonlinear_arith);
    assert(clipped(joined(slots, k), data.len()) =~= data);
}

/// Slots taken from the pieces of an object carry no fault, name its length and
/// hold its stripes.
proof fn lemma_slots_of_object(slots: Seq<Option<Seq<u8>>>, data: Seq<u8>, k: nat, m: nat, n: nat)
    requires
        codec_exists(k, m),
        data.len() <= u64::MAX,
        parity_fits(data, k, m),
        slots_from(slots, ec_pieces(data, k, m)),
        n <= k + m,
    ensures
        first_fault(slots, n) is None,
        named_len(slots, n) is Some ==> named_len(slots, n) == Some(data.len() as u64),
        present(slots.subrange(0, n as int)) > 0 ==> named_len(slots, n) is Some,
    decreases n,
{
    if n > 0 {
        let i = n - 1;
        lemma_slots_of_object(slots, data, k, m, i as nat);
        lemma_present_update(slots, n as int);
        lemma_piece_reads_back(data, k, m, i);
    }
}

pub(crate) proof fn lemma_piece_reads_back(data: Seq<u8>, k: nat, m: nat, i: int)
    requires
        codec_exists(k, m),
        data.len() <= u64::MAX,
        parity_fits(data, k, m),
        0 <= i < k + m,
    ensures
        all_stripes(data, k, m).len() == k + m,
        all_stripes(data, k, m)[i].len() == stripe_len(data.len(), k),
        piece::parsed_piece(ec_pieces(data, k, m)[i]) == Some(piece_header(data.len(), k, m, i)),
        ec_pieces(data, k, m)[i].subrange(16, ec_pieces(data, k, m)[i].len() as int)
            == all_stripes(data, k, m)[i],
{
    let h = piece_header(data.len(), k, m, i);
    let stripe = all_stripes(data, k, m)[i];
    lemma_stripe_len(data.len(), k);
    assert(stripe.len() == stripe_len(data.len(), k)) by {
        if i < k {
            assert(stripe == data_stripes(data, k)[i]);
        } else {
            assert(stripe == parity_stripes(data, k, m)[i - k]);
        }
    }
    piece::piece_header_round_trip(h, stripe);
}

/// Every piece says which one it is of which object, and has the length that belongs to
/// it; the stripes of the data pieces in turn are the object, with zeros behind it.
pub proof fn pieces_describe_themselves(data: Seq<u8>, k: nat, m: nat, i: int)
    requires
        codec_exists(k, m),
        data.len() <= u64::MAX,
        parity_fits(data, k, m),
        0 <= i < k + m,
    ensures
        ec_pieces(data, k, m).len() == k + m,
        ec_pieces(data, k, m)[i].len() == 16 + piece::ceil_div(data.len(), k),
        piece::parsed_piece(ec_pieces(data, k, m)[i]) == Some(piece_header(data.len(), k, m, i)),
        i < k ==> ec_pieces(data, k, m)[i].subrange(16, ec_pieces(data, k, m)[i].len() as int)
            == data_stripe(data, piece::ceil_div(data.len(), k), i),
        data.len() <= k * piece::ceil_div(data.len(), k),
{
    lemma_piece_reads_back(data, k, m, i);
    lemma_stripe_len(data.len(), k);
    piece::piece_header_round_trip(
        piece_header(data.len(), k, m, i),
        all_stripes(data, k, m)[i],
    );
}

proof fn lemma_bare_slots(slots: Seq<Option<Seq<u8>>>, data: Seq<u8>, k: nat, m: nat)
    requires
        codec_exists(k, m),
        data.len() <= u64::MAX,
        parity_fits(data, k, m),
        slots_from(slots, ec_pieces(data, k, m)),
    ensures
        slots_from(bare(slots), all_stripes(data, k, m)),
        data.len() > 0 ==> even_slots(bare(slots)),
        data.len() > 0 ==> even_stripes(data_stripes(data, k), k),
{
    let b = bare(slots);
    lemma_stripe_len(data.len(), k);
    lemma_piece_reads_back(data, k, m, 0);
    assert forall|i: int| 0 <= i < b.len() implies match #[trigger] b[i] {
        Some(p) => p == all_stripes(data, k, m)[i] && p.len() == stripe_len(data.len(), k),
        None => true,
    } by {
        lemma_piece_reads_back(data, k, m, i);
        if slots[i] is Some {
            assert(slots[i]->0 == ec_pieces(data, k, m)[i]);
        }
    }
}

/// Whether every filled slot holds the piece of `data` that belongs there, and
/// enough of them are filled to get it back.
pub open spec fn recoverable(slots: Seq<Option<Seq<u8>>>, data: Seq<u8>, k: nat, m: nat) -> bool {
    &&& codec_exists(k, m)
    &&& data.len() <= u64::MAX
    &&& parity_fits(data, k, m)
    &&& slots_from(slots, ec_pieces(data, k, m))
    &&& present(slots) >= k
}

/// Puts an object together from its pieces, slot by piece index; a missing
/// piece is `None`.
///
/// Any `k` pieces of an encoded object give the object back.
pub fn ec_decode(slots: Vec<Option<Vec<u8>>>, k: usize, m: usize) -> (r: DomainResult<Vec<u8>>)
    requires
        k + m <= usize::MAX,
    ensures
        domain::bytes_result(r) == ec_decoded(slot_views(slots@), k as nat, m as nat),
        forall|data: Seq<u8>| #[trigger]
            recoverable(slot_views(slots@), data, k as nat, m as nat) ==> domain::bytes_result(r)
                == Ok::<Seq<u8>, domain::ErrorView>(data),
{
    let ghost sv = slot_views(slots@);
    let ghost kn = k as nat;
    let ghost mn = m as nat;
    if slots.len() != k + m {
        let mut t = "ec decode: want ".to_owned();
        text::push_dec(&mut t, (k + m) as u64);
        t.append(" slots, got ");
        text::push_dec(&mut t, slots.len() as u64);
        return Err(DomainError::Io(t));
    }
    let mut logical: Option<u64> = None;
    let mut have: usize = 0;
    let mut all_data: bool = true;
    let mut stripes: Vec<Option<Vec<u8>>> = Vec::new();
    let mut i: usize = 0;
    while i < slots.len()
        invariant
            slots@.len() == k + m,
            kn == k,
            mn == m,
            sv == slot_views(slots@),
            i <= k + m,
            first_fault(sv, i as nat) is None,
            logical == named_len(sv, i as nat),
            have == present(sv.subrange(0, i as int)),
            have <= i,
            all_data == (forall|a: int| 0 <= a < i && a < k ==> (#[trigger] sv[a]) is Some),
            stripes@.len() == i,
            forall|a: int| 0 <= a < i ==> slot_views(stripes@)[a] == #[trigger] bare(sv)[a],
        decreases k + m - i,
    {
        assert(sv[i as int] == match slots@[i as int] {
            Some(p) => Some(p@),
            None => None,
        });
        proof {
            lemma_present_update(sv, i + 1);
        }
        let ghost before = stripes@;
        match &slots[i] {
            Some(p) => {
                match parse_piece_header(p.as_slice()) {
                    None => {
                        let mut t = "piece ".to_owned();
                        text::push_dec(&mut t, i as u64);
                        t.append(": bad EC header");
                        proof {
                            assert(slot_fault(i as nat, sv[i as int]) is Some);
                            lemma_first_fault(sv, (i + 1) as nat, kn + mn);
                            lemma_recoverable_sound(sv, kn, mn);
                        }
                        return Err(DomainError::IntegrityViolation(t));
                    },
                    Some(h) => {
                        if h.piece_idx as usize != i {
                            let mut t = "piece slot ".to_owned();
                            text::push_dec(&mut t, i as u64);
                            t.append(" holds idx ");
                            text::push_dec(&mut t, h.piece_idx as u64);
                            proof {
                                assert(slot_fault(i as nat, sv[i as int]) is Some);
                                lemma_first_fault(sv, (i + 1) as nat, kn + mn);
                                lemma_recoverable_sound(sv, kn, mn);
                            }
                            return Err(DomainError::IntegrityViolation(t));
                        }
                        logical = Some(h.logical_len);
                        have = have + 1;
                        stripes.push(Some(bytes::copy_range(p.as_slice(), EC_HEADER_LEN, p.len())));
                    },
                }
            },
            None => {
                if i < k {
                    all_data = false;
                }
                stripes.push(None);
            },
        }
        assert forall|a: int| 0 <= a < i + 1 implies slot_views(stripes@)[a] == #[trigger] bare(
            sv,
        )[a] by {
            if a < i {
                assert(slot_views(before)[a] == bare(sv)[a]);
                assert(stripes@[a] == before[a]);
            }
        }
        i = i + 1;
    }
    proof {
        assert(sv.subrange(0, (k + m) as int) =~= sv);
        assert(slot_views(stripes@) =~= bare(sv));
        lemma_bare_present(sv);
        lemma_recoverable_sound(sv, kn, mn);
    }
    let len: u64 = match logical {
        Some(l) => l,
        None => {
            return Err(DomainError::NotFound);
        },
    };
    if have < k {
        let mut t = "ec decode: only ".to_owned();
        text::push_dec(&mut t, have as u64);
        t.append(" of ");
        text::push_dec(&mut t, k as u64);
        t.append(" pieces");
        return Err(DomainError::Io(t));
    }
    if len == 0 {
        proof {
            assert forall|data: Seq<u8>| #[trigger] recoverable(sv, data, kn, mn) implies data
                == Seq::<u8>::empty() by {
                assert(data.len() as u64 == 0);
            }
        }
        return Ok(Vec::new());
    }
    if all_data {
        assert(all_filled(sv, kn));
        let out = join_stripes(&stripes, k, len);
        proof {
            assert forall|data: Seq<u8>| #[trigger] recoverable(sv, data, kn, mn) implies out@
                == data by {
                lemma_bare_slots(sv, data, kn, mn);
                lemma_slots_of_object(sv, data, kn, mn, kn + mn);
                assert(all_filled(bare(sv), kn)) by {
                    assert forall|a: int| 0 <= a < kn implies (#[trigger] bare(sv)[a]) is Some by {
                        assert(sv[a] is Some);
                    }
                }
                lemma_joined_is_data(bare(sv), data, kn, mn);
            }
        }
        return Ok(out);
    }
    assert(!all_filled(sv, kn));
    match rs_new(k, m) {
        Ok(_) => {},
        Err(why) => {
            return Err(init_failure(k, m, why));
        },
    }
    match rs_reconstruct(k, m, &mut stripes) {
        Ok(_) => {},
        Err(why) => {
            let mut t = "rs reconstruct: ".to_owned();
            t.append(why.as_str());
            proof {
                assert forall|data: Seq<u8>| #[trigger] recoverable(sv, data, kn, mn) implies false by {
                    lemma_bare_slots(sv, data, kn, mn);
                }
            }
            return Err(DomainError::Io(t));
        },
    }
    let out = join_stripes(&stripes, k, len);
    proof {
        let full = slot_views(stripes@);
        assert forall|data: Seq<u8>| #[trigger] recoverable(sv, data, kn, mn) implies out@
            == data by {
            lemma_bare_slots(sv, data, kn, mn);
            lemma_slots_of_object(sv, data, kn, mn, kn + mn);
            assert(slots_from(full, all_stripes(data, kn, mn)));
            assert(all_filled(full, kn)) by {
                assert forall|a: int| 0 <= a < kn implies (#[trigger] full[a]) is Some by {
                    assert(stripes@[a] is Some);
                }
            }
            lemma_joined_is_data(full, data, kn, mn);
        }
    }
    Ok(out)
}

proof fn lemma_first_fault(slots: Seq<Option<Seq<u8>>>, n: nat, end: nat)
    requires
        n <= end,
        first_fault(slots, n) is Some,
    ensures
        first_fault(slots, end) == first_fault(slots, n),
    decreases end,
{
    if n < end {
        lemma_first_fault(slots, n, (end - 1) as nat);
    }
}

proof fn lemma_recoverable_sound(slots: Seq<Option<Seq<u8>>>, k: nat, m: nat)
    ensures
        forall|data: Seq<u8>| #[trigger]
            recoverable(slots, data, k, m) ==> {
                &&& slots.len() == k + m
                &&& first_fault(slots, k + m) is None
                &&& named_len(slots, k + m) == Some(data.len() as u64)
                &&& present(slots) >= k
            },
{
    assert forall|data: Seq<u8>| #[trigger] recoverable(slots, data, k, m) implies {
        &&& slots.len() == k + m
        &&& first_fault(slots, k + m) is None
        &&& named_len(slots, k + m) == Some(data.len() as u64)
        &&& present(slots) >= k
    } by {
        lemma_slots_of_object(slots, data, k, m, k + m);
        assert(slots.subrange(0, (k + m) as int) =~= slots);
    }
}

fn copy_slots(slots: &Vec<Option<Vec<u8>>>) -> (r: Vec<Option<Vec<u8>>>)
    ensures
        slot_views(r@) == slot_views(slots@),
{
    let mut r: Vec<Option<Vec<u8>>> = Vec::new();
    let mut i: usize = 0;
    while i < slots.len()
        invariant
            i <= slots@.len(),
            r@.len() == i,
            forall|a: int| 0 <= a < i ==> slot_views(r@)[a] == #[trigger] slot_views(slots@)[a],
        decreases slots@.len() - i,
    {
        let ghost before = r@;
        match &slots[i] {
            Some(p) => r.push(Some(bytes::copy_range(p.as_slice(), 0, p.len()))),
            None => r.push(None),
        }
        assert forall|a: int| 0 <= a < i + 1 implies slot_views(r@)[a] == #[trigger] slot_views(
            slots@,
        )[a] by {
            if a < i {
                assert(slot_views(before)[a] == slot_views(slots@)[a]);
            } else {
                assert(slots@[i as int] is Some ==> slots@[i as int]->0@.subrange(
                    0,
                    slots@[i as int]->0@.len() as int,
                ) =~= slots@[i as int]->0@);
            }
        }
        i = i + 1;
    }
    assert(slot_views(r@) =~= slot_views(slots@));
    r
}

fn ec_decode_keep(slots: &Vec<Option<Vec<u8>>>, k: usize, m: usize) -> (r: DomainResult<Vec<u8>>)
    requires
        k + m <= usize::MAX,
    ensures
        domain::bytes_result(r) == ec_decoded(slot_views(slots@), k as nat, m as nat),
        forall|data: Seq<u8>| #[trigger]
            recoverable(slot_views(slots@), data, k as nat, m as nat) ==> domain::bytes_result(r)
                == Ok::<Seq<u8>, domain::ErrorView>(data),
{
    ec_decode(copy_slots(slots), k, m)
}

/// A result over pieces with both sides taken by value.
pub open spec fn pieces_result(r: DomainResult<Vec<Vec<u8>>>) -> Result<
    Seq<Seq<u8>>,
    domain::ErrorView,
> {
    match r {
        Ok(v) => Ok(views(v@)),
        Err(e) => Err(e@),
    }
}

/// All pieces of the object that the slots spell, the missing ones rebuilt.
///
/// From any `k` pieces of an encoded object come all of its pieces, bit for bit.
pub fn ec_repair_pieces(slots: Vec<Option<Vec<u8>>>, k: usize, m: usize) -> (r: DomainResult<
    Vec<Vec<u8>>,
>)
    requires
        k > 0,
        k + m <= usize::MAX,
    ensures
        pieces_result(r) == match ec_decoded(slot_views(slots@), k as nat, m as nat) {
            Err(e) => Err(e),
            Ok(data) => if codec_exists(k as nat, m as nat) {
                Ok(ec_pieces(data, k as nat, m as nat))
            } else {
                Err(domain::ErrorView::Io(init_error(k as nat, m as nat)))
            },
        },
        forall|data: Seq<u8>| #[trigger]
            recoverable(slot_views(slots@), data, k as nat, m as nat) ==> pieces_result(r) == Ok::<
                Seq<Seq<u8>>,
                domain::ErrorView,
            >(ec_pieces(data, k as nat, m as nat)),
{
    let body = match ec_decode_keep(&slots, k, m) {
        Ok(body) => body,
        Err(e) => {
            return Err(e);
        },
    };
    ec_encode(
        body.as_slice(),
        &EcConfig { data: k, parity: m, min_size: 65536, write_quorum: 5 },
    )
}

/// Cutting an object succeeds for every shape of at most 256 pieces with data and parity, at
/// any length. Byte `j` of the object is byte `j % s` of data stripe `j / s`, where `s` is the
/// shortest length with which `k` stripes hold the object, and every piece names its place,
/// the shape and the object's length.
pub proof fn pieces_hold_the_bytes(
    data: &[u8],
    cfg: &EcConfig,
    r: DomainResult<Vec<Vec<u8>>>,
    s: nat,
    i: int,
    j: int,
)
    requires
        call_ensures(ec_encode, (data, cfg), r),
        data@.len() <= u64::MAX,
        0 < cfg.data,
        0 < cfg.parity,
        cfg.data + cfg.parity <= 256,
        // the shortest stripes that hold the object
        data@.len() <= s * cfg.data,
        s > 0 ==> (s - 1) * cfg.data < data@.len(),
        0 <= i < cfg.data + cfg.parity,
        0 <= j < data@.len(),
    ensures
        r matches Ok(pieces) && {
            &&& pieces@.len() == cfg.data + cfg.parity
            &&& pieces@[i]@.len() == 16 + s
            &&& pieces@[i]@.take(4) == seq![0x4fu8, 0x5a, 0x45, 0x43]
            &&& pieces@[i]@[5] == cfg.data
            &&& pieces@[i]@[6] == cfg.parity
            &&& pieces@[i]@[7] == i
            &&& bytes::le_value(pieces@[i]@.subrange(8, 16)) == data@.len()
            &&& 0 <= j / s as int && j / (s as int) < cfg.data
            &&& pieces@[j / s as int]@[16 + j % s as int] == data@[j]
        },
{
    let k = cfg.data as nat;
    let m = cfg.parity as nat;
    let len = data@.len();
    let pieces = r->Ok_0;
    let all = ec_pieces(data@, k, m);
    assert(s == stripe_len(len, k)) by {
        lemma_shortest(len, k, s);
    }
    lemma_stripe_len(len, k);
    pieces_describe_themselves(data@, k, m, i);
    assert(pieces@[i]@ == all[i]) by {
        assert(views(pieces@)[i] == all[i]);
    }
    let h = piece_header(len, k, m, i);
    bytes::lemma_le_bytes_len(len, 8);
    bytes::lemma_pow256_values();
    bytes::lemma_le_round_trip(len, 8);
    assert(all[i] == h.encoded() + all_stripes(data@, k, m)[i]);
    assert(all[i].take(4) =~= seq![0x4fu8, 0x5a, 0x45, 0x43]);
    assert(all[i].subrange(8, 16) =~= bytes::le_bytes(len, 8));
    let q = j / s as int;
    assert(0 <= q < k && j == q * s + j % (s as int) && 0 <= j % (s as int) < s) by (nonlinear_arith)
        requires
            0 <= j < len,
            len <= s * k,
            s > 0,
            q == j / s as int,
    ;
    pieces_describe_themselves(data@, k, m, q);
    assert(pieces@[q]@ == all[q]) by {
        assert(views(pieces@)[q] == all[q]);
    }
    let stripe = all[q].subrange(16, all[q].len() as int);
    assert(stripe[j % s as int] == all[q][16 + j % s as int]);
    assert(stripe[j % s as int] == padded_at(data@, q * s + j % s as int));
}

proof fn lemma_shortest(len: nat, k: nat, s: nat)
    requires
        k > 0,
        len <= s * k,
        s > 0 ==> (s - 1) * k < len,
    ensures
        s == stripe_len(len, k),
{
    let t = stripe_len(len, k);
    lemma_stripe_len(len, k);
    if len > 0 {
        let q = (len - 1) / k as int;
        assert(s == q + 1) by (nonlinear_arith)
            requires
                k > 0,
                len > 0,
                len <= s * k,
                s > 0 ==> (s - 1) * k < len,
                q == (len - 1) / k as int,
        ;
    } else {
        assert(s == 0) by (nonlinear_arith)
            requires
                k > 0,
                s > 0 ==> (s - 1) * k < 0,
        ;
    }
}

/// Slots with any `k` pieces of an object that was cut are enough to get it back, at any
/// length of the object; slots with fewer give an error, and so do slots that are not `k + m`.
pub proof fn enough_pieces_decide(
    data: &[u8],
    cfg: &EcConfig,
    encoded: DomainResult<Vec<Vec<u8>>>,
    slots: Seq<Option<Seq<u8>>>,
)
    requires
        0 < cfg.data,
        0 < cfg.parity,
        cfg.data + cfg.parity <= 256,
        call_ensures(ec_encode, (data, cfg), encoded),
        data@.len() <= u64::MAX,
        encoded is Ok,
        slots.len() == cfg.data + cfg.parity,
        forall|i: int|
            0 <= i < slots.len() && (#[trigger] slots[i]) is Some ==> slots[i]->0 == (
            encoded->Ok_0)@[i]@,
    ensures
        present(slots) >= cfg.data ==> recoverable(
            slots,
            data@,
            cfg.data as nat,
            cfg.parity as nat,
        ),
        present(slots) < cfg.data ==> ec_decoded(slots, cfg.data as nat, cfg.parity as nat) is Err,
        present(slots) == 0 ==> ec_decoded(slots, cfg.data as nat, cfg.parity as nat) == Err::<
            Seq<u8>,
            domain::ErrorView,
        >(domain::ErrorView::NotFound),
        ec_decoded(slots.drop_last(), cfg.data as nat, cfg.parity as nat) is Err,
{
    let k = cfg.data as nat;
    let m = cfg.parity as nat;
    let all = ec_pieces(data@, k, m);
    let pieces = (encoded->Ok_0)@;
    assert(views(pieces) == all);
    assert(views(pieces).len() == pieces.len());
    assert(slots_from(slots, all)) by {
        assert forall|i: int| 0 <= i < slots.len() implies match #[trigger] slots[i] {
            Some(p) => p == all[i],
            None => true,
        } by {
            assert(views(pieces)[i] == pieces[i]@);
        }
    }
    lemma_slots_of_object(slots, data@, k, m, k + m);
    if present(slots) == 0 {
        lemma_unnamed(slots, k + m);
    }
}

proof fn lemma_unnamed(slots: Seq<Option<Seq<u8>>>, n: nat)
    requires
        present(slots) == 0,
        n <= slots.len(),
    ensures
        named_len(slots, n) is None,
    decreases n,
{
    if n > 0 {
        lemma_unnamed(slots, (n - 1) as nat);
        lemma_none_filled(slots, n - 1);
    }
}

proof fn lemma_none_filled(slots: Seq<Option<Seq<u8>>>, i: int)
    requires
        present(slots) == 0,
        0 <= i < slots.len(),
    ensures
        slots[i] is None,
    decreases slots.len(),
{
    if i < slots.len() - 1 {
        lemma_none_filled(slots.drop_last(), i);
    }
}

} // verus!
