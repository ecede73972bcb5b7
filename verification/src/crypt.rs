//! The hash collaborators of the scheme — the SHA-3 fixed-output functions
//! G and H, the SHAKE-based J and PRF, the streaming XOF — and the system
//! randomness source.
//!
//! The hash primitives are deterministic functions of their input bytes, so
//! each gets a name at the specification level; the wrappers promise nothing
//! beyond that naming and the documented output lengths.  Of the randomness
//! source only the length of the result is promised.

use vstd::prelude::*;
use rand::RngCore;
use rand::SeedableRng;
use sha3::Digest;
use sha3::digest::{ExtendableOutput, Update, XofReader};

verus! {

/// What SHA3-256 returns for the given input bytes.
pub uninterp spec fn sha3_256_of(input: Seq<u8>) -> Seq<u8>;

/// What SHA3-512 returns for the given input bytes.
pub uninterp spec fn sha3_512_of(input: Seq<u8>) -> Seq<u8>;

/// Byte `i` of the unbounded SHAKE128 output stream for the given input.
pub uninterp spec fn shake128_byte(input: Seq<u8>, i: int) -> u8;

/// Byte `i` of the unbounded SHAKE256 output stream for the given input.
pub uninterp spec fn shake256_byte(input: Seq<u8>, i: int) -> u8;

/// Relies on rand's `StdRng::from_entropy` and `fill_bytes`: `n` bytes from
/// the operating system's entropy, of which nothing further can be said.
#[verifier::external_body]
pub fn random_bytes(n: usize) -> (r: Vec<u8>)
    ensures
        r@.len() == n,
{
    let mut rng = rand::rngs::StdRng::from_entropy();
    let mut res = vec![0u8; n];
    rng.fill_bytes(&mut res);
    res
}

/// Relies on sha3's `Sha3_512`: 64 bytes determined by the input alone.
#[verifier::external_body]
fn sha3_512(input: &Vec<u8>) -> (r: Vec<u8>)
    ensures
        r@ == sha3_512_of(input@),
        r@.len() == 64,
{
    let mut hasher = sha3::Sha3_512::new();
    Digest::update(&mut hasher, input.as_slice());
    hasher.finalize().to_vec()
}

/// The function G of the scheme: SHA3-512, split into two 32-byte halves.
pub fn g(c: &Vec<u8>) -> (r: (Vec<u8>, Vec<u8>))
    ensures
        r.0@ == sha3_512_of(c@).take(32),
        r.1@ == sha3_512_of(c@).skip(32),
        r.0@.len() == 32,
        r.1@.len() == 32,
{
    let d = sha3_512(c);
    let mut a: Vec<u8> = Vec::new();
    let mut b: Vec<u8> = Vec::new();
    let mut i: usize = 0;
    while i < 32
        invariant
            i <= 32,
            d@ == sha3_512_of(c@),
            d@.len() == 64,
            a@.len() == i,
            forall|j: int| 0 <= j < i ==> a@[j] == d@[j],
        decreases 32 - i,
    {
        a.push(d[i]);
        i += 1;
    }
    let mut i: usize = 32;
    while i < 64
        invariant
            32 <= i <= 64,
            d@ == sha3_512_of(c@),
            d@.len() == 64,
            b@.len() == i - 32,
            forall|j: int| 0 <= j < i - 32 ==> b@[j] == d@[j + 32],
        decreases 64 - i,
    {
        b.push(d[i]);
        i += 1;
    }
    proof {
        assert(a@ =~= sha3_512_of(c@).take(32));
        assert(b@ =~= sha3_512_of(c@).skip(32));
    }
    (a, b)
}

/// The function H of the scheme.  Relies on sha3's `Sha3_256`: 32 bytes
/// determined by the input alone.
#[verifier::external_body]
pub fn h(s: &Vec<u8>) -> (r: Vec<u8>)
    ensures
        r@ == sha3_256_of(s@),
        r@.len() == 32,
{
    let mut hasher = sha3::Sha3_256::new();
    Digest::update(&mut hasher, s.as_slice());
    hasher.finalize().to_vec()
}

/// The function J of the scheme.  Relies on sha3's `Shake256`: the first 32
/// bytes of the stream determined by the input alone.
#[verifier::external_body]
pub fn j(s: &Vec<u8>) -> (r: Vec<u8>)
    ensures
        r@.len() == 32,
        forall|i: int| 0 <= i < 32 ==> r@[i] == shake256_byte(s@, i),
{
    let mut hasher = sha3::Shake256::default();
    Update::update(&mut hasher, s.as_slice());
    let mut reader = hasher.finalize_xof();
    let mut res = vec![0u8; 32];
    XofReader::read(&mut reader, &mut res);
    res
}

/// The pseudorandom function of the scheme.  Relies on sha3's `Shake256`:
/// the first `n` bytes of the stream for the seed followed by the counter
/// byte, determined by that input alone.
#[verifier::external_body]
pub fn prf(s: &Vec<u8>, b: u8, n: usize) -> (r: Vec<u8>)
    ensures
        r@.len() == n,
        forall|i: int| 0 <= i < n ==> r@[i] == shake256_byte(s@.push(b), i),
{
    let mut hasher = sha3::Shake256::default();
    Update::update(&mut hasher, s.as_slice());
    Update::update(&mut hasher, &[b]);
    let mut reader = hasher.finalize_xof();
    let mut res = vec![0u8; n];
    XofReader::read(&mut reader, &mut res);
    res
}

/// Relies on sha3's `Shake128`: the first `n` bytes of the stream for the
/// given input, determined by that input alone.
#[verifier::external_body]
pub fn shake128(input: &Vec<u8>, n: usize) -> (r: Vec<u8>)
    ensures
        r@.len() == n,
        forall|i: int| 0 <= i < n ==> r@[i] == shake128_byte(input@, i),
{
    let mut hasher = sha3::Shake128::default();
    Update::update(&mut hasher, input.as_slice());
    let mut reader = hasher.finalize_xof();
    let mut res = vec![0u8; n];
    XofReader::read(&mut reader, &mut res);
    res
}

} // verus!
