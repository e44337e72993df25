//! The primitives that the scheme consumes as black boxes: the SHAKE-128 stream, the
//! SHA3-256 digest, little-endian word reads and the random source.
use vstd::prelude::*;
use byteorder::{ByteOrder, LittleEndian};
use rand::rngs::StdRng;
use rand::RngCore;
use tiny_keccak::{Hasher, Sha3, Shake, Xof};

verus! {

#[verifier::external_type_specification]
#[verifier::external_body]
pub struct ExStdRng(StdRng);

/// The first `len` bytes of the SHAKE-128 output stream on input `seed`.
pub uninterp spec fn shake128_output(seed: Seq<u8>, len: nat) -> Seq<u8>;

/// The SHA3-256 digest of `data`.
pub uninterp spec fn sha3_256_digest(data: Seq<u8>) -> Seq<u8>;

/// Relies on tiny_keccak's `Shake::v128`, `Hasher::update` and `Xof::squeeze`: absorbs
/// `seed` and fills a buffer of `len` bytes from the start of the output stream.
#[verifier::external_body]
pub(crate) fn shake128(seed: &[u8], len: usize) -> (r: Vec<u8>)
    ensures
        r@ == shake128_output(seed@, len as nat),
        r@.len() == len,
{
    let mut xof = Shake::v128();
    xof.update(seed);
    let mut out = vec![0u8; len];
    xof.squeeze(&mut out);
    out
}

/// Relies on tiny_keccak's `Sha3::v256`, `Hasher::update` and `Hasher::finalize`: the
/// 32-byte digest of `data`.
#[verifier::external_body]
pub(crate) fn sha3_256(data: &[u8]) -> (r: [u8; 32])
    ensures
        r@ == sha3_256_digest(data@),
{
    let mut hasher = Sha3::v256();
    hasher.update(data);
    let mut out = [0u8; 32];
    hasher.finalize(&mut out);
    out
}

/// Relies on byteorder's `LittleEndian::read_u16`: the first two bytes as a
/// little-endian 16-bit word (it panics on fewer than two bytes).
#[verifier::external_body]
pub(crate) fn read_u16_le(buf: &[u8]) -> (r: u16)
    requires
        buf@.len() >= 2,
    ensures
        r == buf@[0] + 256 * buf@[1],
{
    LittleEndian::read_u16(buf)
}

/// Relies on rand's `RngCore::fill_bytes` for `StdRng`: `n` random bytes.
#[verifier::external_body]
pub(crate) fn random_bytes(rng: &mut StdRng, n: usize) -> (r: Vec<u8>)
    ensures
        r@.len() == n,
{
    let mut out = vec![0u8; n];
    rng.fill_bytes(&mut out);
    out
}

/// Relies on rand's `RngCore::next_u32` for `StdRng`: a random 32-bit word.
#[verifier::external_body]
pub(crate) fn random_u32(rng: &mut StdRng) -> (r: u32) {
    rng.next_u32()
}

} // verus!
