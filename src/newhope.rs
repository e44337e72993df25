//! The exchange on polynomials: key generation, the responder's step and the
//! initiator's final step, and the helper's byte form.
use vstd::prelude::*;
use crate::params::{N, RECBYTES};
use crate::error_correction::{helprec_with_bits, rec, helprec_spec, rec_spec, bounded_by_4};
use crate::ntt::{ntt_spec, invntt_spec};
use crate::primitives::random_bytes;
use crate::poly::{
    uniform, noise_from_words, random_words, pointwise, ntt, invntt, pointwise_spec, add_spec, uniform_spec,
    noise_spec,
};
use rand::rngs::StdRng;

verus! {

/// The public polynomial a ∘ s + e (transform domain).
pub open spec fn offer_spec(s: Seq<u16>, e: Seq<u16>, a: Seq<u16>) -> Seq<u16> {
    add_spec(e, pointwise_spec(s, a))
}

/// The responder's noisy vector invntt(pk ∘ s') + e'' (canonical domain).
pub open spec fn accept_v(sp: Seq<u16>, epp: Seq<u16>, pk: Seq<u16>) -> Seq<u16> {
    add_spec(invntt_spec(pointwise_spec(pk, sp)), epp)
}

/// The initiator's noisy vector invntt(s ∘ b) (canonical domain).
pub open spec fn finish_v(sk: Seq<u16>, bp: Seq<u16>) -> Seq<u16> {
    invntt_spec(pointwise_spec(sk, bp))
}

/// pk = a ∘ s + e.
fn offer_computation(pk: &mut [u16], s: &[u16], e: &[u16], a: &[u16])
    requires
        old(pk)@.len() == N,
        s@.len() == N,
        e@.len() == N,
        a@.len() == N,
    ensures
        final(pk)@ == offer_spec(s@, e@, a@),
{
    let mut r = [0u16; N];
    pointwise(&mut r, s, a);
    crate::poly::add(pk, e, &r);
}

/// The responder's arithmetic: b = a ∘ s' + e', v = invntt(pk ∘ s') + e'', the helper
/// of v under the random bits `r`, and the key that v reconciles to under that helper.
fn accept_computation(
    key: &mut [u8],
    bp: &mut [u16],
    c: &mut [u16],
    sp: &[u16],
    ep: &[u16],
    epp: &[u16],
    pk: &[u16],
    a: &[u16],
    r: &[u8],
)
    requires
        old(key)@.len() == 32,
        old(bp)@.len() == N,
        old(c)@.len() == N,
        sp@.len() == N,
        ep@.len() == N,
        epp@.len() == N,
        pk@.len() == N,
        a@.len() == N,
        r@.len() == 32,
    ensures
        final(bp)@ == add_spec(pointwise_spec(a@, sp@), ep@),
        final(c)@ == helprec_spec(accept_v(sp@, epp@, pk@), r@),
        final(key)@ == rec_spec(accept_v(sp@, epp@, pk@), final(c)@),
        bounded_by_4(final(c)@),
{
    let mut v = [0u16; N];
    let mut t = [0u16; N];
    pointwise(&mut t, a, sp);
    crate::poly::add(bp, &t, ep);
    pointwise(&mut t, pk, sp);
    invntt(&mut t);
    crate::poly::add(&mut v, &t, epp);
    helprec_with_bits(c, &v, r);
    rec(key, &v, c);
}

/// The initiator's arithmetic: v' = invntt(s ∘ b) and the key it reconciles to under c.
fn finish_computation(key: &mut [u8], sk: &[u16], bp: &[u16], c: &[u16])
    requires
        old(key)@.len() == 32,
        sk@.len() == N,
        bp@.len() == N,
        c@.len() == N,
        bounded_by_4(c@),
    ensures
        final(key)@ == rec_spec(finish_v(sk@, bp@), c@),
{
    let mut v = [0u16; N];
    pointwise(&mut v, sk, bp);
    invntt(&mut v);
    rec(key, &v, c);
}

/// Field j (0 to 3) of a helper byte: bits 2j and 2j + 1.
pub open spec fn helper_field(b: u8, j: int) -> u16 {
    ((b >> ((2 * j) as u8)) & 3u8) as u16
}

/// The helper read from its byte form: entry 4k + j is field j of byte k.
pub open spec fn rec_from_bytes_spec(r: Seq<u8>) -> Seq<u16> {
    Seq::new(N as nat, |p: int| helper_field(r[p / 4], p % 4))
}

/// Four helper entries packed into one byte, entry j at bits 2j and 2j + 1.
pub open spec fn helper_byte(c0: u16, c1: u16, c2: u16, c3: u16) -> u8 {
    (c0 as u8) | ((c1 << 2u16) as u8) | ((c2 << 4u16) as u8) | ((c3 << 6u16) as u8)
}

/// The byte form of a helper: byte k packs entries 4k to 4k + 3.
pub open spec fn rec_to_bytes_spec(c: Seq<u16>) -> Seq<u8> {
    Seq::new(
        RECBYTES as nat,
        |k: int| helper_byte(c[4 * k], c[4 * k + 1], c[4 * k + 2], c[4 * k + 3]),
    )
}

proof fn lemma_helper_fields(b: u8)
    by (bit_vector)
    ensures
        (b as u16) & 3u16 == ((b >> 0u8) & 3u8) as u16,
        ((b >> 2u8) as u16) & 3u16 == ((b >> 2u8) & 3u8) as u16,
        ((b >> 4u8) as u16) & 3u16 == ((b >> 4u8) & 3u8) as u16,
        ((b >> 6u8) as u16) == ((b >> 6u8) & 3u8) as u16,
        (b >> 0u8) & 3u8 < 4,
        (b >> 2u8) & 3u8 < 4,
        (b >> 4u8) & 3u8 < 4,
        (b >> 6u8) & 3u8 < 4,
{
}

/// Reads the helper from its 256-byte form: `rec_from_bytes_spec(r)`.
pub fn rec_frombytes(r: &[u8], c: &mut [u16; N])
    requires
        r@.len() == RECBYTES,
    ensures
        final(c)@ == rec_from_bytes_spec(r@),
        bounded_by_4(final(c)@),
{
    for i in 0..N / 4
        invariant
            r@.len() == RECBYTES,
            forall|p: int| 0 <= p < 4 * i ==> c@[p] == rec_from_bytes_spec(r@)[p],
    {
        let b = r[i];
        proof {
            lemma_helper_fields(b);
        }
        c[4 * i] = b as u16 & 0x03;
        c[4 * i + 1] = (b >> 2) as u16 & 0x03;
        c[4 * i + 2] = (b >> 4) as u16 & 0x03;
        c[4 * i + 3] = (b >> 6) as u16;
        proof {
            assert forall|p: int| 4 * i <= p < 4 * i + 4 implies c@[p] == rec_from_bytes_spec(
                r@,
            )[p] by {
                assert(p / 4 == i);
                assert(p == 4 * i + p % 4);
            }
        }
    }
    proof {
        assert(c@ =~= rec_from_bytes_spec(r@));
        assert forall|p: int| 0 <= p < N implies c@[p] < 4 by {
            lemma_helper_fields(r@[p / 4]);
            assert(0 <= p % 4 < 4);
        }
    }
}

/// Writes the helper in its 256-byte form: `rec_to_bytes_spec(c)`.
pub fn rec_tobytes(c: &[u16; N], r: &mut [u8])
    requires
        old(r)@.len() == RECBYTES,
    ensures
        final(r)@ == rec_to_bytes_spec(c@),
{
    for k in 0..N / 4
        invariant
            r@.len() == RECBYTES,
            forall|m: int| 0 <= m < k ==> r@[m] == rec_to_bytes_spec(c@)[m],
    {
        let i = 4 * k;
        r[k] = c[i] as u8 | (c[i + 1] << 2) as u8 | (c[i + 2] << 4) as u8 | (c[i + 3] << 6) as u8;
    }
    proof {
        assert(r@ =~= rec_to_bytes_spec(c@));
    }
}

proof fn lemma_helper_byte_round_trip(c0: u16, c1: u16, c2: u16, c3: u16)
    by (bit_vector)
    requires
        c0 < 4 && c1 < 4 && c2 < 4 && c3 < 4,
    ensures
        ({
            let b = (c0 as u8) | ((c1 << 2u16) as u8) | ((c2 << 4u16) as u8) | ((c3 << 6u16) as u8);
            &&& ((b >> 0u8) & 3u8) as u16 == c0
            &&& ((b >> 2u8) & 3u8) as u16 == c1
            &&& ((b >> 4u8) & 3u8) as u16 == c2
            &&& ((b >> 6u8) & 3u8) as u16 == c3
        }),
{
}

/// The helper's byte form loses nothing: reading back the bytes written for a helper
/// of 2-bit entries gives that helper.
pub proof fn lemma_rec_bytes_round_trip(c: Seq<u16>)
    requires
        c.len() == N,
        bounded_by_4(c),
    ensures
        rec_from_bytes_spec(rec_to_bytes_spec(c)) == c,
{
    let b = rec_to_bytes_spec(c);
    assert forall|p: int| 0 <= p < N implies rec_from_bytes_spec(b)[p] == c[p] by {
        let k = p / 4;
        assert(0 <= k < 256);
        lemma_helper_byte_round_trip(c[4 * k], c[4 * k + 1], c[4 * k + 2], c[4 * k + 3]);
        assert(p == 4 * k + p % 4);
    }
    assert(rec_from_bytes_spec(b) =~= c);
}

/// The initiator's key pair under noise words `ws`, `we` and seed `nonce`: the secret
/// ntt(noise(ws)) and the public polynomial a ∘ s + ntt(noise(we)), a = uniform(nonce).
pub open spec fn keygen_spec(nonce: Seq<u8>, ws: Seq<u32>, we: Seq<u32>) -> (Seq<u16>, Seq<u16>) {
    let s = ntt_spec(noise_spec(ws));
    (s, offer_spec(s, ntt_spec(noise_spec(we)), uniform_spec(nonce)))
}

/// Generates the initiator's key pair from the seed `nonce` and the noise words `ws`
/// (secret) and `we` (error): `keygen_spec(nonce, ws, we)`, both in the transform domain.
pub fn keygen_with(sk: &mut [u16], pk: &mut [u16], nonce: &[u8], ws: &[u32], we: &[u32])
    requires
        old(sk)@.len() == N,
        old(pk)@.len() == N,
        ws@.len() == N,
        we@.len() == N,
    ensures
        (final(sk)@, final(pk)@) == keygen_spec(nonce@, ws@, we@),
{
    let mut a = [0u16; N];
    let mut e = [0u16; N];
    uniform(&mut a, nonce);
    noise_from_words(sk, ws);
    ntt(sk);
    noise_from_words(&mut e, we);
    ntt(&mut e);
    offer_computation(pk, sk, &e, &a);
}

/// Generates the initiator's key pair: the secret `sk` and the public `pk`, both in the
/// transform domain, with the public polynomial expanded from `nonce` and the noise drawn
/// from `rng`.
pub fn keygen(sk: &mut [u16], pk: &mut [u16], nonce: &[u8], rng: &mut StdRng)
    requires
        old(sk)@.len() == N,
        old(pk)@.len() == N,
    ensures
        exists|ws: Seq<u32>, we: Seq<u32>|
            ws.len() == N && we.len() == N && (final(sk)@, final(pk)@) == keygen_spec(
                nonce@,
                ws,
                we,
            ),
{
    let ws = random_words(rng, N);
    let we = random_words(rng, N);
    keygen_with(sk, pk, nonce, ws.as_slice(), we.as_slice());
    assert((sk@, pk@) == keygen_spec(nonce@, ws@, we@));
}

/// What the responder computes under noise words `w1`, `w2`, `w3` and random bits `r`:
/// (b, c, key) with s' = ntt(noise(w1)), e' = ntt(noise(w2)), e'' = noise(w3),
/// b = a ∘ s' + e', v = invntt(pk ∘ s') + e'', c the helper of v under r, and the
/// key that v reconciles to under c.
pub open spec fn sharedb_spec(
    pka: Seq<u16>,
    nonce: Seq<u8>,
    w1: Seq<u32>,
    w2: Seq<u32>,
    w3: Seq<u32>,
    r: Seq<u8>,
) -> (Seq<u16>, Seq<u16>, Seq<u8>) {
    let sp = ntt_spec(noise_spec(w1));
    let ep = ntt_spec(noise_spec(w2));
    let epp = noise_spec(w3);
    let v = accept_v(sp, epp, pka);
    let c = helprec_spec(v, r);
    (add_spec(pointwise_spec(uniform_spec(nonce), sp), ep), c, rec_spec(v, c))
}

/// The responder's step on the initiator's public polynomial `pka` and seed `nonce`,
/// under the noise words `w1` (secret), `w2`, `w3` (errors) and the helper bits `r`:
/// writes its public polynomial `pk`, the helper `c` and the raw 32-byte key material,
/// `sharedb_spec(pka, nonce, w1, w2, w3, r)`.
pub fn sharedb_with(
    sharedkey: &mut [u8],
    pk: &mut [u16],
    c: &mut [u16],
    pka: &[u16],
    nonce: &[u8],
    w1: &[u32],
    w2: &[u32],
    w3: &[u32],
    r: &[u8],
)
    requires
        old(sharedkey)@.len() == 32,
        old(pk)@.len() == N,
        old(c)@.len() == N,
        pka@.len() == N,
        w1@.len() == N,
        w2@.len() == N,
        w3@.len() == N,
        r@.len() == 32,
    ensures
        (final(pk)@, final(c)@, final(sharedkey)@) == sharedb_spec(
            pka@,
            nonce@,
            w1@,
            w2@,
            w3@,
            r@,
        ),
        bounded_by_4(final(c)@),
{
    let mut a = [0u16; N];
    let mut sp = [0u16; N];
    let mut ep = [0u16; N];
    let mut epp = [0u16; N];
    uniform(&mut a, nonce);
    noise_from_words(&mut sp, w1);
    ntt(&mut sp);
    noise_from_words(&mut ep, w2);
    ntt(&mut ep);
    noise_from_words(&mut epp, w3);
    accept_computation(sharedkey, pk, c, &sp, &ep, &epp, pka, &a, r);
}

/// The responder's step on the initiator's public polynomial `pka` and seed `nonce`:
/// writes its public polynomial `pk`, the helper `c` and the raw 32-byte key material,
/// with noise and helper bits drawn from `rng`.
pub fn sharedb(
    sharedkey: &mut [u8],
    pk: &mut [u16],
    c: &mut [u16],
    pka: &[u16],
    nonce: &[u8],
    rng: &mut StdRng,
)
    requires
        old(sharedkey)@.len() == 32,
        old(pk)@.len() == N,
        old(c)@.len() == N,
        pka@.len() == N,
    ensures
        exists|w1: Seq<u32>, w2: Seq<u32>, w3: Seq<u32>, r: Seq<u8>|
            w1.len() == N && w2.len() == N && w3.len() == N && r.len() == 32 && (
            final(pk)@,
            final(c)@,
            final(sharedkey)@,
            ) == sharedb_spec(pka@, nonce@, w1, w2, w3, r),
        bounded_by_4(final(c)@),
{
    let w1 = random_words(rng, N);
    let w2 = random_words(rng, N);
    let w3 = random_words(rng, N);
    let r = random_bytes(rng, 32);
    sharedb_with(sharedkey, pk, c, pka, nonce, w1.as_slice(), w2.as_slice(), w3.as_slice(), r.as_slice());
    assert((pk@, c@, sharedkey@) == sharedb_spec(pka@, nonce@, w1@, w2@, w3@, r@));
}

/// The initiator's final step: the raw 32-byte key material that its secret `ska`
/// reconciles to against the responder's public polynomial `pkb` under helper `c`.
pub fn shareda(sharedkey: &mut [u8], ska: &[u16], pkb: &[u16], c: &[u16])
    requires
        old(sharedkey)@.len() == 32,
        ska@.len() == N,
        pkb@.len() == N,
        c@.len() == N,
        bounded_by_4(c@),
    ensures
        final(sharedkey)@ == rec_spec(finish_v(ska@, pkb@), c@),
{
    finish_computation(sharedkey, ska, pkb, c);
}

} // verus!
