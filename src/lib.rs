//! New Hope key exchange over the ring Z_q[x]/(x^1024 + 1), q = 12289.
//!
//! Three steps on byte messages: `keygen` (the initiator's key pair and message A),
//! `sharedb` (the responder's key and message B) and `shareda` (the initiator's key).
use vstd::prelude::*;
use rand::rngs::StdRng;

pub mod params;
pub mod primitives;
pub mod reduce;
pub mod ntt;
pub mod poly;
pub mod error_correction;
pub mod newhope;

pub use params::{N, Q, POLY_BYTES, SEEDBYTES, RECBYTES, SENDABYTES, SENDBBYTES};

use primitives::{random_bytes, sha3_256, sha3_256_digest};
use poly::{
    random_words, poly_tobytes, poly_frombytes, poly_to_bytes_spec, poly_from_bytes_spec, freeze_spec,
    lemma_poly_bytes_read_back,
};
use newhope::{
    rec_tobytes, rec_frombytes, rec_to_bytes_spec, rec_from_bytes_spec, keygen_spec, sharedb_spec,
    finish_v, lemma_rec_bytes_round_trip,
};
use error_correction::{rec_spec, bounded_by_4};

verus! {

/// Message A for the key pair that noise words `ws`, `we` and seed `nonce` give: the
/// serialized public polynomial followed by the seed.
pub open spec fn message_a_spec(nonce: Seq<u8>, ws: Seq<u32>, we: Seq<u32>) -> Seq<u8> {
    poly_to_bytes_spec(keygen_spec(nonce, ws, we).1) + nonce
}

/// The responder's shared secret and message B for message A `pk` under noise words
/// `w1`, `w2`, `w3` and helper bits `r`: the SHA3-256 digest of the reconciled key
/// material, and the serialized public polynomial followed by the serialized helper.
pub open spec fn respond_spec(
    pk: Seq<u8>,
    w1: Seq<u32>,
    w2: Seq<u32>,
    w3: Seq<u32>,
    r: Seq<u8>,
) -> (Seq<u8>, Seq<u8>) {
    let out = sharedb_spec(
        poly_from_bytes_spec(pk.subrange(0, 1792)),
        pk.subrange(1792, 1824),
        w1,
        w2,
        w3,
        r,
    );
    (sha3_256_digest(out.2), poly_to_bytes_spec(out.0) + rec_to_bytes_spec(out.1))
}

/// The initiator's shared secret for serialized secret `sk` and message B `msg`: the
/// SHA3-256 digest of the key material that the secret reconciles to.
pub open spec fn finish_spec(sk: Seq<u8>, msg: Seq<u8>) -> Seq<u8> {
    sha3_256_digest(
        rec_spec(
            finish_v(poly_from_bytes_spec(sk), poly_from_bytes_spec(msg.subrange(0, 1792))),
            rec_from_bytes_spec(msg.subrange(1792, 2048)),
        ),
    )
}

/// Message A carries the public polynomial and the seed intact: reading its first 1792
/// bytes gives each coefficient of the polynomial in canonical form, and the last 32
/// bytes are the seed.
pub proof fn lemma_message_a_read_back(pk: Seq<u16>, nonce: Seq<u8>)
    requires
        pk.len() == N,
        nonce.len() == SEEDBYTES,
    ensures
        ({
            let msg = poly_to_bytes_spec(pk) + nonce;
            &&& poly_from_bytes_spec(msg.subrange(0, 1792)) == Seq::new(
                N as nat,
                |i: int| freeze_spec(pk[i]),
            )
            &&& msg.subrange(1792, 1824) == nonce
        }),
{
    let msg = poly_to_bytes_spec(pk) + nonce;
    assert(msg.subrange(0, 1792) =~= poly_to_bytes_spec(pk));
    assert(msg.subrange(1792, 1824) =~= nonce);
    lemma_poly_bytes_read_back(pk);
}

/// Message B carries the responder's public polynomial and helper intact: reading its
/// first 1792 bytes gives each coefficient of the polynomial in canonical form, and
/// reading the last 256 bytes gives the helper.
pub proof fn lemma_message_b_read_back(b: Seq<u16>, c: Seq<u16>)
    requires
        b.len() == N,
        c.len() == N,
        bounded_by_4(c),
    ensures
        ({
            let msg = poly_to_bytes_spec(b) + rec_to_bytes_spec(c);
            &&& poly_from_bytes_spec(msg.subrange(0, 1792)) == Seq::new(
                N as nat,
                |i: int| freeze_spec(b[i]),
            )
            &&& rec_from_bytes_spec(msg.subrange(1792, 2048)) == c
        }),
{
    let msg = poly_to_bytes_spec(b) + rec_to_bytes_spec(c);
    assert(msg.subrange(0, 1792) =~= poly_to_bytes_spec(b));
    assert(msg.subrange(1792, 2048) =~= rec_to_bytes_spec(c));
    lemma_poly_bytes_read_back(b);
    lemma_rec_bytes_round_trip(c);
}

/// out = first followed by second.
fn write_concat(out: &mut [u8], first: &[u8], second: &[u8])
    requires
        old(out)@.len() == first@.len() + second@.len(),
    ensures
        final(out)@ == first@ + second@,
{
    let n = first.len();
    for i in 0..n
        invariant
            n == first@.len(),
            out@.len() == first@.len() + second@.len(),
            forall|k: int| 0 <= k < i ==> out@[k] == first@[k],
    {
        out[i] = first[i];
    }
    let total = out.len();
    for i in 0..second.len()
        invariant
            n == first@.len(),
            total == out@.len(),
            out@.len() == first@.len() + second@.len(),
            forall|k: int| 0 <= k < n ==> out@[k] == first@[k],
            forall|k: int| 0 <= k < i ==> out@[n + k] == second@[k],
    {
        out[n + i] = second[i];
    }
    assert(out@ =~= first@ + second@);
}

/// The initiator's first step from the 32-byte seed `nonce` and the noise words `ws`
/// (secret) and `we` (error): writes the serialized secret to `sk` and message A (public
/// polynomial, then seed) to `pk`.
pub fn keygen_with(
    sk: &mut [u8; POLY_BYTES],
    pk: &mut [u8; SENDABYTES],
    nonce: &[u8],
    ws: &[u32],
    we: &[u32],
)
    requires
        nonce@.len() == SEEDBYTES,
        ws@.len() == N,
        we@.len() == N,
    ensures
        final(sk)@ == poly_to_bytes_spec(keygen_spec(nonce@, ws@, we@).0),
        final(pk)@ == message_a_spec(nonce@, ws@, we@),
        final(pk)@.len() == SENDABYTES,
{
    let mut ska = [0u16; N];
    let mut pka = [0u16; N];
    newhope::keygen_with(&mut ska, &mut pka, nonce, ws, we);
    *sk = poly_tobytes(&ska);
    let pk_bytes = poly_tobytes(&pka);
    write_concat(pk, pk_bytes.as_slice(), nonce);
}

/// The initiator's first step: draws a 32-byte seed and the noise from `rng`, writes
/// the serialized secret to `sk` and message A (public polynomial, then seed) to `pk`.
pub fn keygen(rng: &mut StdRng, sk: &mut [u8; POLY_BYTES], pk: &mut [u8; SENDABYTES])
    ensures
        exists|nonce: Seq<u8>, ws: Seq<u32>, we: Seq<u32>|
            nonce.len() == SEEDBYTES && ws.len() == N && we.len() == N && final(sk)@
                == poly_to_bytes_spec(keygen_spec(nonce, ws, we).0) && final(pk)@
                == message_a_spec(nonce, ws, we),
        final(pk)@.len() == SENDABYTES,
{
    let nonce = random_bytes(rng, SEEDBYTES);
    let ws = random_words(rng, N);
    let we = random_words(rng, N);
    keygen_with(sk, pk, nonce.as_slice(), ws.as_slice(), we.as_slice());
    assert(pk@ == message_a_spec(nonce@, ws@, we@));
}

/// The responder's step on message A `pk` under the noise words `w1` (secret), `w2`,
/// `w3` (errors) and the helper bits `r`: writes the 32-byte shared secret to
/// `sharedkey` and message B (public polynomial, then helper) to `msg`,
/// `respond_spec(pk, w1, w2, w3, r)`.
pub fn sharedb_with(
    sharedkey: &mut [u8; 32],
    pk: &[u8; SENDABYTES],
    msg: &mut [u8; SENDBBYTES],
    w1: &[u32],
    w2: &[u32],
    w3: &[u32],
    r: &[u8],
)
    requires
        w1@.len() == N,
        w2@.len() == N,
        w3@.len() == N,
        r@.len() == 32,
    ensures
        (final(sharedkey)@, final(msg)@) == respond_spec(pk@, w1@, w2@, w3@, r@),
        final(msg)@.len() == SENDBBYTES,
{
    let pka = poly_frombytes(vstd::slice::slice_subrange(pk.as_slice(), 0, POLY_BYTES));
    let nonce = vstd::slice::slice_subrange(pk.as_slice(), POLY_BYTES, SENDABYTES);
    let mut key = [0u8; 32];
    let mut pkb = [0u16; N];
    let mut c = [0u16; N];
    newhope::sharedb_with(&mut key, &mut pkb, &mut c, &pka, nonce, w1, w2, w3, r);
    *sharedkey = sha3_256(&key);
    let pkb_bytes = poly_tobytes(&pkb);
    let mut c_bytes = [0u8; RECBYTES];
    rec_tobytes(&c, &mut c_bytes);
    write_concat(msg, pkb_bytes.as_slice(), c_bytes.as_slice());
    proof {
        assert(pk@.subrange(0, 1792) == pk@.subrange(0, POLY_BYTES as int));
    }
}

/// The responder's step on message A `pk`: draws the noise and the helper bits from
/// `rng`, writes the 32-byte shared secret to `sharedkey` and message B (public
/// polynomial, then helper) to `msg`.
pub fn sharedb(
    rng: &mut StdRng,
    sharedkey: &mut [u8; 32],
    pk: &[u8; SENDABYTES],
    msg: &mut [u8; SENDBBYTES],
)
    ensures
        exists|w1: Seq<u32>, w2: Seq<u32>, w3: Seq<u32>, r: Seq<u8>|
            w1.len() == N && w2.len() == N && w3.len() == N && r.len() == 32 && (
            final(sharedkey)@,
            final(msg)@,
            ) == respond_spec(pk@, w1, w2, w3, r),
        final(msg)@.len() == SENDBBYTES,
{
    let w1 = random_words(rng, N);
    let w2 = random_words(rng, N);
    let w3 = random_words(rng, N);
    let r = random_bytes(rng, 32);
    sharedb_with(sharedkey, pk, msg, w1.as_slice(), w2.as_slice(), w3.as_slice(), r.as_slice());
    assert((sharedkey@, msg@) == respond_spec(pk@, w1@, w2@, w3@, r@));
}

/// The initiator's final step: the 32-byte shared secret for its serialized secret `sk`
/// and message B `msg`, `finish_spec(sk, msg)`.
pub fn shareda(sharedkey: &mut [u8; 32], sk: &[u8; POLY_BYTES], msg: &[u8; SENDBBYTES])
    ensures
        final(sharedkey)@ == finish_spec(sk@, msg@),
{
    let ska = poly_frombytes(sk.as_slice());
    let pkb = poly_frombytes(vstd::slice::slice_subrange(msg.as_slice(), 0, POLY_BYTES));
    let mut c = [0u16; N];
    rec_frombytes(vstd::slice::slice_subrange(msg.as_slice(), POLY_BYTES, SENDBBYTES), &mut c);
    let mut key = [0u8; 32];
    newhope::shareda(&mut key, &ska, &pkb, &c);
    *sharedkey = sha3_256(&key);
}

} // verus!
