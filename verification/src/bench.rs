//! The workload of the load test: reproducible random bodies in the sizes that IPFS
//! stores have.
use vstd::prelude::*;
use crate::bytes;

verus! {

/// A generator of the xorshift64* family.
#[derive(Clone, Copy, Debug, PartialEq, Eq, Structural)]
pub struct Rng(pub u64);

/// The state after one step.
pub open spec fn shuffled(x: u64) -> u64 {
    let a = x ^ (x << 13u64);
    let b = a ^ (a >> 7u64);
    b ^ (b << 17u64)
}

/// The number drawn in a state.
pub open spec fn drawn(x: u64) -> u64 {
    ((shuffled(x) * 0x2545_F491_4F6C_DD1D) % 0x1_0000_0000_0000_0000) as u64
}

impl Rng {
    /// Draws a number.
    pub fn next(&mut self) -> (r: u64)
        ensures
            final(self).0 == shuffled(old(self).0),
            r == drawn(old(self).0),
    {
        let x: u64 = self.0;
        let a: u64 = x ^ (x << 13u64);
        let b: u64 = a ^ (a >> 7u64);
        let c: u64 = b ^ (b << 17u64);
        self.0 = c;
        proof {
            assert(c * 0x2545_F491_4F6C_DD1D <= 0xffff_ffff_ffff_ffff * 0x2545_F491_4F6C_DD1D)
                by (nonlinear_arith)
                requires
                    c <= 0xffff_ffff_ffff_ffff,
            ;
        }
        let wide: u128 = c as u128 * 0x2545_F491_4F6C_DD1D;
        (wide % 0x1_0000_0000_0000_0000) as u64
    }

    /// A number of 53 bits.
    pub fn unit(&mut self) -> (r: u64)
        ensures
            final(self).0 == shuffled(old(self).0),
            r == drawn(old(self).0) / 2048,
            r < 0x20_0000_0000_0000,
    {
        self.next() / 2048
    }

    /// A number below `n`.
    pub fn below(&mut self, n: usize) -> (r: usize)
        requires
            n > 0,
        ensures
            final(self).0 == shuffled(old(self).0),
            r == drawn(old(self).0) % (n as u64),
            r < n,
    {
        (self.next() % (n as u64)) as usize
    }
}

/// The generator never falls into the state that it could not leave.
pub proof fn states_stay_alive(x: u64)
    requires
        x != 0,
    ensures
        shuffled(x) != 0,
{
    let a = x ^ (x << 13u64);
    let b = a ^ (a >> 7u64);
    let c = b ^ (b << 17u64);
    assert(x ^ (x << 13u64) == 0 ==> x == 0) by (bit_vector);
    assert(a ^ (a >> 7u64) == 0 ==> a == 0) by (bit_vector);
    assert(b ^ (b << 17u64) == 0 ==> b == 0) by (bit_vector);
}

/// The size of a body for a number of 53 bits: three quarters are of 256 KiB, up to nine
/// tenths of 4 KiB, the rest of 1 MiB.
pub open spec fn size_for(u: u64) -> usize {
    if u < 0x18_0000_0000_0000 {
        262144
    } else if u < 8_106_479_329_266_893 {
        4096
    } else {
        1048576
    }
}

/// Draws the size of a body.
pub fn body_size(rng: &mut Rng) -> (r: usize)
    ensures
        final(rng).0 == shuffled(old(rng).0),
        r == size_for(drawn(old(rng).0) / 2048),
{
    let u: u64 = rng.unit();
    if u < 0x18_0000_0000_0000 {
        262144
    } else if u < 8_106_479_329_266_893 {
        4096
    } else {
        1048576
    }
}

/// The bytes of `words` draws, each with its lowest byte first.
pub open spec fn random_bytes(x: u64, words: nat) -> Seq<u8>
    decreases words,
{
    if words == 0 {
        Seq::empty()
    } else {
        bytes::le_bytes(drawn(x) as nat, 8) + random_bytes(shuffled(x), (words - 1) as nat)
    }
}

/// The state after `words` draws.
pub open spec fn state_after(x: u64, words: nat) -> u64
    decreases words,
{
    if words == 0 {
        x
    } else {
        state_after(shuffled(x), (words - 1) as nat)
    }
}

proof fn lemma_one_more(x: u64, n: nat)
    ensures
        state_after(x, n + 1) == shuffled(state_after(x, n)),
        random_bytes(x, n + 1) == random_bytes(x, n) + bytes::le_bytes(
            drawn(state_after(x, n)) as nat,
            8,
        ),
    decreases n,
{
    reveal_with_fuel(random_bytes, 2);
    reveal_with_fuel(state_after, 2);
    if n > 0 {
        lemma_one_more(shuffled(x), (n - 1) as nat);
        let head = bytes::le_bytes(drawn(x) as nat, 8);
        let tail = bytes::le_bytes(drawn(state_after(x, n)) as nat, 8);
        assert(random_bytes(x, n + 1) =~= random_bytes(x, n) + tail);
    } else {
        assert(random_bytes(x, 1) =~= random_bytes(x, 0) + bytes::le_bytes(drawn(x) as nat, 8));
    }
}

/// A random body: whole draws, and zeros where the size is no multiple of eight.
pub fn fill_body(rng: &mut Rng, size: usize) -> (r: Vec<u8>)
    ensures
        r@ == random_bytes(old(rng).0, size as nat / 8) + Seq::new(size as nat % 8, |i: int| 0u8),
        final(rng).0 == state_after(old(rng).0, size as nat / 8),
{
    let mut out: Vec<u8> = Vec::new();
    let words: usize = size / 8;
    let mut i: usize = 0;
    let ghost x = rng.0;
    while i < words
        invariant
            i <= words,
            rng.0 == state_after(x, i as nat),
            out@ == random_bytes(x, i as nat),
        decreases words - i,
    {
        proof {
            lemma_one_more(x, i as nat);
            bytes::lemma_pow256_values();
        }
        let w: u64 = rng.next();
        bytes::push_le(&mut out, w, 8);
        i = i + 1;
    }
    let ghost filled = out@;
    let rest: usize = size % 8;
    let mut j: usize = 0;
    while j < rest
        invariant
            j <= rest,
            out@ =~= filled + Seq::new(j as nat, |i: int| 0u8),
        decreases rest - j,
    {
        out.push(0);
        j = j + 1;
    }
    out
}

/// Three quarters of the numbers stand for bodies of 256 KiB, the next until nine tenths for
/// small ones of 4 KiB, and the rest for large ones of 1 MiB.
pub proof fn sizes_are_shared_out(u: u64)
    requires
        u < 0x20_0000_0000_0000,
    ensures
        4 * u < 3 * 0x20_0000_0000_0000 ==> size_for(u) == 256 * 1024,
        4 * u >= 3 * 0x20_0000_0000_0000 && 10 * u < 9 * 0x20_0000_0000_0000 ==> size_for(u) == 4
            * 1024,
        10 * (u - 1) >= 9 * 0x20_0000_0000_0000 ==> size_for(u) == 1024 * 1024,
{
}

/// A body has the size that was asked for, and goes on where whole draws end with zeros.
pub proof fn bodies_have_their_size(x: u64, words: nat)
    ensures
        random_bytes(x, words).len() == 8 * words,
    decreases words,
{
    if words > 0 {
        bodies_have_their_size(shuffled(x), (words - 1) as nat);
        bytes::lemma_le_bytes_len(drawn(x) as nat, 8);
    }
}

} // verus!
