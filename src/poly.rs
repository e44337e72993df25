//! Polynomials of the ring: arithmetic, serialization and sampling.
use vstd::prelude::*;
use crate::params::{N, Q, POLY_BYTES};
use crate::primitives::{shake128, shake128_output, read_u16_le, random_u32};
use rand::rngs::StdRng;
use crate::ntt::{
    fft, mul_coefficients, bitrev_vector, psis_bitrev_montgomery, psis_inv_montgomery,
    omegas_montgomery, omegas_inv_montgomery, ntt_spec, invntt_spec, psis_bitrev_table,
    psis_inv_table, omegas_table, omegas_inv_table,
};
use crate::reduce::{
    montgomery_reduce, barrett_reduce, montgomery_reduce_spec, barrett_reduce_spec,
    mont_factor,
};

verus! {

/// A ring element: 1024 coefficients of 16 bits each.
pub struct Poly {
    pub coeffs: [u16; N],
}

impl Default for Poly {
    fn default() -> (p: Poly)
        ensures
            forall|i: int| 0 <= i < N ==> p.coeffs[i] == 0,
    {
        Poly { coeffs: [0u16; N] }
    }
}

/// R^2 mod Q for R = 2^18: multiplying by it and reducing twice leaves a plain product.
const MONT_R2: u32 = 3186;

/// One coefficient of the pointwise product.
pub open spec fn pointwise_coeff(a: u16, b: u16) -> int {
    montgomery_reduce_spec(montgomery_reduce_spec(3186 * b) * a)
}

/// Coefficient-wise product of `a` and `b`, with Montgomery reduction.
pub open spec fn pointwise_spec(a: Seq<u16>, b: Seq<u16>) -> Seq<u16> {
    Seq::new(N as nat, |i: int| pointwise_coeff(a[i], b[i]) as u16)
}

/// Coefficient-wise sum of `a` and `b` (wrapping at 16 bits), with Barrett reduction.
pub open spec fn add_spec(a: Seq<u16>, b: Seq<u16>) -> Seq<u16> {
    Seq::new(N as nat, |i: int| barrett_reduce_spec((a[i] + b[i]) % 65536) as u16)
}

/// Every coefficient is below `bound`.
pub open spec fn bounded(p: Seq<u16>, bound: int) -> bool {
    forall|i: int| 0 <= i < p.len() ==> p[i] < bound
}

/// The largest coefficient that `pointwise` produces.
pub open spec fn pointwise_max() -> int {
    15560
}

proof fn lemma_pointwise_coeff(a: u16, b: u16)
    ensures
        3186 * b <= 208794510,
        montgomery_reduce_spec(3186 * b) <= 13085,
        montgomery_reduce_spec(3186 * b) * a <= 857525475,
        0 <= pointwise_coeff(a, b) <= pointwise_max(),
{
    let x = 3186 * b as int;
    assert(0 <= mont_factor(x) < 262144);
    let t = montgomery_reduce_spec(x);
    assert(0 <= t <= 13085);
    assert(t * a <= 13085 * 65535) by (nonlinear_arith)
        requires
            0 <= t <= 13085,
            0 <= a <= 65535,
    ;
    assert(0 <= t * a) by (nonlinear_arith)
        requires
            0 <= t,
            0 <= a,
    ;
    let y = t * a;
    assert(0 <= mont_factor(y) < 262144);
}

/// Two Montgomery reductions after a multiplication by R^2 mod Q leave the plain
/// product modulo Q.
proof fn lemma_pointwise_congruent(a: int, b: int, t: int, r: int, f1: int, f2: int)
    requires
        t * 262144 == 3186 * b + f1 * 12289,
        r * 262144 == t * a + f2 * 12289,
    ensures
        r % 12289 == (a * b) % 12289,
{
    let x = r - a * b;
    let s = a * f1 + f2 * 262144 - r * 5591950;
    assert(r * 262144 * 262144 == 3186 * a * b + 12289 * (a * f1 + f2 * 262144)) by (nonlinear_arith)
        requires
            t * 262144 == 3186 * b + f1 * 12289,
            r * 262144 == t * a + f2 * 12289,
    ;
    assert(3186 * x == 12289 * s) by (nonlinear_arith)
        requires
            r * 262144 * 262144 == 3186 * a * b + 12289 * (a * f1 + f2 * 262144),
            x == r - a * b,
            s == a * f1 + f2 * 262144 - r * 5591950,
    ;
    assert(x == 12289 * (12262 * s - 3179 * x)) by (nonlinear_arith)
        requires
            3186 * x == 12289 * s,
    ;
    vstd::arithmetic::div_mod::lemma_mod_multiples_vanish(12262 * s - 3179 * x, a * b, 12289);
}

/// r = a ∘ b: the coefficient-wise product in the transform domain.
pub fn pointwise(r: &mut [u16], a: &[u16], b: &[u16])
    requires
        old(r)@.len() == N,
        a@.len() == N,
        b@.len() == N,
    ensures
        final(r)@ == pointwise_spec(a@, b@),
        bounded(final(r)@, pointwise_max() + 1),
        forall|i: int| 0 <= i < N ==> #[trigger] final(r)@[i] % 12289 == (a@[i] * b@[i]) % 12289,
{
    for i in 0..N
        invariant
            r@.len() == N,
            a@.len() == N,
            b@.len() == N,
            forall|k: int| 0 <= k < i ==> r@[k] == pointwise_spec(a@, b@)[k],
            forall|k: int| 0 <= k < i ==> #[trigger] r@[k] % 12289 == (a@[k] * b@[k]) % 12289,
    {
        proof {
            lemma_pointwise_coeff(a@[i as int], b@[i as int]);
        }
        let x = MONT_R2 * b[i] as u32;
        let t = montgomery_reduce(x);
        let y = t as u32 * a[i] as u32;
        let v = montgomery_reduce(y);
        proof {
            lemma_pointwise_congruent(
                a@[i as int] as int,
                b@[i as int] as int,
                t as int,
                v as int,
                mont_factor(x as int),
                mont_factor(y as int),
            );
        }
        r[i] = v;
    }
    proof {
        assert(r@ =~= pointwise_spec(a@, b@));
        assert forall|k: int| 0 <= k < N implies r@[k] < pointwise_max() + 1 by {
            lemma_pointwise_coeff(a@[k], b@[k]);
        }
    }
}

/// r = a + b, each coefficient Barrett-reduced.
pub fn add(r: &mut [u16], a: &[u16], b: &[u16])
    requires
        old(r)@.len() == N,
        a@.len() == N,
        b@.len() == N,
    ensures
        final(r)@ == add_spec(a@, b@),
        bounded(final(r)@, 16380),
        forall|i: int|
            0 <= i < N && a@[i] + b@[i] < 65536 ==> #[trigger] final(r)@[i] % 12289 == (a@[i]
                + b@[i]) % 12289,
{
    for i in 0..N
        invariant
            r@.len() == N,
            a@.len() == N,
            b@.len() == N,
            forall|k: int| 0 <= k < i ==> r@[k] == add_spec(a@, b@)[k],
            forall|k: int| 0 <= k < i ==> r@[k] < 16380,
            forall|k: int|
                0 <= k < i && a@[k] + b@[k] < 65536 ==> #[trigger] r@[k] % 12289 == (a@[k]
                    + b@[k]) % 12289,
    {
        r[i] = barrett_reduce(a[i].wrapping_add(b[i]));
    }
    proof {
        assert(r@ =~= add_spec(a@, b@));
    }
}

/// The canonical representative in [0, Q) that serialization writes.
pub open spec fn freeze_spec(x: u16) -> u16 {
    let t = barrett_reduce_spec(x as int);
    (if t >= 12289 { t - 12289 } else { t }) as u16
}

/// Four 14-bit values as one 56-bit little-endian group.
pub open spec fn pack14(t0: u16, t1: u16, t2: u16, t3: u16) -> u64 {
    (t0 as u64) | ((t1 as u64) << 14u64) | ((t2 as u64) << 28u64) | ((t3 as u64) << 42u64)
}

/// Seven bytes read as one 56-bit little-endian group.
pub open spec fn group_of_bytes(b0: u8, b1: u8, b2: u8, b3: u8, b4: u8, b5: u8, b6: u8) -> u64 {
    (b0 as u64) | ((b1 as u64) << 8u64) | ((b2 as u64) << 16u64) | ((b3 as u64) << 24u64)
        | ((b4 as u64) << 32u64) | ((b5 as u64) << 40u64) | ((b6 as u64) << 48u64)
}

/// Byte `m` (0 to 6) of a 56-bit group.
pub open spec fn byte_of_group(g: u64, m: int) -> u8 {
    ((g >> ((8 * m) as u64)) & 0xff) as u8
}

/// The 14-bit value `j` (0 to 3) of a 56-bit group.
pub open spec fn coeff_of_group(g: u64, j: int) -> u16 {
    ((g >> ((14 * j) as u64)) & 0x3fff) as u16
}

/// The serialized form of a polynomial: coefficient 4g + j, brought to [0, Q),
/// fills bits 14j to 14j + 13 of the 56-bit little-endian group at bytes 7g to 7g + 6.
pub open spec fn poly_to_bytes_spec(p: Seq<u16>) -> Seq<u8> {
    Seq::new(
        POLY_BYTES as nat,
        |k: int|
            {
                let g = k / 7;
                byte_of_group(
                    pack14(
                        freeze_spec(p[4 * g]),
                        freeze_spec(p[4 * g + 1]),
                        freeze_spec(p[4 * g + 2]),
                        freeze_spec(p[4 * g + 3]),
                    ),
                    k % 7,
                )
            },
    )
}

/// The 56-bit group `g` of a byte string.
pub open spec fn group_at(a: Seq<u8>, g: int) -> u64 {
    group_of_bytes(
        a[7 * g],
        a[7 * g + 1],
        a[7 * g + 2],
        a[7 * g + 3],
        a[7 * g + 4],
        a[7 * g + 5],
        a[7 * g + 6],
    )
}

/// The polynomial that a byte string holds: coefficient 4g + j is bits 14j to 14j + 13
/// of the 56-bit little-endian group at bytes 7g to 7g + 6.
pub open spec fn poly_from_bytes_spec(a: Seq<u8>) -> Seq<u16> {
    Seq::new(N as nat, |k: int| coeff_of_group(group_at(a, k / 4), k % 4))
}

proof fn lemma_freeze(t: u16, m: u16)
    by (bit_vector)
    requires
        t <= 16379,
        t >= 12289 ==> m == t - 12289,
        t < 12289 ==> m == t + 53247,
    ensures
        t >= 12289 ==> m ^ ((t ^ m) & (((m as i16) >> 15u16) as u16)) == t - 12289,
        t < 12289 ==> m ^ ((t ^ m) & (((m as i16) >> 15u16) as u16)) == t,
{
}

/// Brings a coefficient to its canonical representative in [0, Q), without branching.
fn freeze(x: u16) -> (r: u16)
    ensures
        r == freeze_spec(x),
        r < Q,
        r as int % 12289 == x as int % 12289,
{
    let t = barrett_reduce(x);
    let m = t.wrapping_sub(Q as u16);
    let mut c = (#[verifier::truncate] (m as i16));
    c >>= 15;
    proof {
        lemma_freeze(t, m);
    }
    let r = m ^ ((t ^ m) & (#[verifier::truncate] (c as u16)));
    proof {
        if t >= 12289 {
            vstd::arithmetic::div_mod::lemma_mod_multiples_vanish(-1, t as int, 12289);
        }
    }
    r
}

proof fn lemma_pack_bytes(t0: u16, t1: u16, t2: u16, t3: u16)
    by (bit_vector)
    requires
        t0 < 16384,
        t1 < 16384,
        t2 < 16384,
        t3 < 16384,
    ensures
        ({
            let g = (t0 as u64) | ((t1 as u64) << 14u64) | ((t2 as u64) << 28u64) | ((t3 as u64)
                << 42u64);
            &&& (t0 & 0xff) as u8 == ((g >> 0u64) & 0xff) as u8
            &&& ((t0 >> 8u16) | (t1 << 6u16)) as u8 == ((g >> 8u64) & 0xff) as u8
            &&& (t1 >> 2u16) as u8 == ((g >> 16u64) & 0xff) as u8
            &&& ((t1 >> 10u16) | (t2 << 4u16)) as u8 == ((g >> 24u64) & 0xff) as u8
            &&& (t2 >> 4u16) as u8 == ((g >> 32u64) & 0xff) as u8
            &&& ((t2 >> 12u16) | (t3 << 2u16)) as u8 == ((g >> 40u64) & 0xff) as u8
            &&& (t3 >> 6u16) as u8 == ((g >> 48u64) & 0xff) as u8
        }),
{
}

/// Serializes a polynomial: each coefficient is brought to [0, Q) and written in 14 bits,
/// four coefficients to seven bytes, little-endian.
pub fn poly_tobytes(p: &[u16; N]) -> (r: [u8; POLY_BYTES])
    ensures
        r@ == poly_to_bytes_spec(p@),
{
    let mut output = [0u8; POLY_BYTES];
    for i in 0..N / 4
        invariant
            output@.len() == POLY_BYTES,
            p@.len() == N,
            forall|k: int| 0 <= k < 7 * i ==> output@[k] == poly_to_bytes_spec(p@)[k],
    {
        let t0 = freeze(p[4 * i]);
        let t1 = freeze(p[4 * i + 1]);
        let t2 = freeze(p[4 * i + 2]);
        let t3 = freeze(p[4 * i + 3]);
        proof {
            lemma_pack_bytes(t0, t1, t2, t3);
        }
        output[7 * i] = (t0 & 0xff) as u8;
        output[7 * i + 1] = ((t0 >> 8) | (t1 << 6)) as u8;
        output[7 * i + 2] = (t1 >> 2) as u8;
        output[7 * i + 3] = ((t1 >> 10) | (t2 << 4)) as u8;
        output[7 * i + 4] = (t2 >> 4) as u8;
        output[7 * i + 5] = ((t2 >> 12) | (t3 << 2)) as u8;
        output[7 * i + 6] = (t3 >> 6) as u8;
        proof {
            let g = pack14(t0, t1, t2, t3);
            assert forall|k: int| 7 * i <= k < 7 * i + 7 implies output@[k]
                == poly_to_bytes_spec(p@)[k] by {
                assert(k / 7 == i);
                assert(0 <= k % 7 < 7);
                assert(k == 7 * i + k % 7);
            }
        }
    }
    proof {
        assert(output@ =~= poly_to_bytes_spec(p@));
    }
    output
}

proof fn lemma_unpack_bytes(b0: u8, b1: u8, b2: u8, b3: u8, b4: u8, b5: u8, b6: u8)
    by (bit_vector)
    ensures
        ({
            let g = (b0 as u64) | ((b1 as u64) << 8u64) | ((b2 as u64) << 16u64) | ((b3 as u64)
                << 24u64) | ((b4 as u64) << 32u64) | ((b5 as u64) << 40u64) | ((b6 as u64)
                << 48u64);
            &&& (b0 as u16) | (((b1 as u16) & 0x3f) << 8u16) == ((g >> 0u64) & 0x3fff) as u16
            &&& ((b1 as u16) >> 6u16) | ((b2 as u16) << 2u16) | (((b3 as u16) & 0x0f) << 10u16)
                == ((g >> 14u64) & 0x3fff) as u16
            &&& ((b3 as u16) >> 4u16) | ((b4 as u16) << 4u16) | (((b5 as u16) & 0x03) << 12u16)
                == ((g >> 28u64) & 0x3fff) as u16
            &&& ((b5 as u16) >> 2u16) | ((b6 as u16) << 6u16) == ((g >> 42u64) & 0x3fff) as u16
        }),
{
}

/// Reads a polynomial from its 1792-byte serialized form: each coefficient is 14 bits,
/// four coefficients to seven bytes, little-endian.
pub fn poly_frombytes(a: &[u8]) -> (r: [u16; N])
    requires
        a@.len() == POLY_BYTES,
    ensures
        r@ == poly_from_bytes_spec(a@),
        bounded(r@, 16384),
{
    let mut output = [0u16; N];
    for i in 0..N / 4
        invariant
            output@.len() == N,
            a@.len() == POLY_BYTES,
            forall|k: int| 0 <= k < 4 * i ==> output@[k] == poly_from_bytes_spec(a@)[k],
    {
        let b0 = a[7 * i];
        let b1 = a[7 * i + 1];
        let b2 = a[7 * i + 2];
        let b3 = a[7 * i + 3];
        let b4 = a[7 * i + 4];
        let b5 = a[7 * i + 5];
        let b6 = a[7 * i + 6];
        proof {
            lemma_unpack_bytes(b0, b1, b2, b3, b4, b5, b6);
        }
        output[4 * i] = (b0 as u16) | ((b1 as u16 & 0x3f) << 8);
        output[4 * i + 1] = ((b1 as u16) >> 6) | ((b2 as u16) << 2) | ((b3 as u16 & 0x0f) << 10);
        output[4 * i + 2] = ((b3 as u16) >> 4) | ((b4 as u16) << 4) | ((b5 as u16 & 0x03) << 12);
        output[4 * i + 3] = ((b5 as u16) >> 2) | ((b6 as u16) << 6);
        proof {
            assert forall|k: int| 4 * i <= k < 4 * i + 4 implies output@[k]
                == poly_from_bytes_spec(a@)[k] by {
                assert(k / 4 == i);
                assert(k == 4 * i + k % 4);
            }
        }
    }
    proof {
        assert(output@ =~= poly_from_bytes_spec(a@));
        lemma_from_bytes_bounded(a@);
    }
    output
}

proof fn lemma_coeff_of_group_bound(g: u64)
    by (bit_vector)
    ensures
        (g >> 0u64) & 0x3fff < 16384,
        (g >> 14u64) & 0x3fff < 16384,
        (g >> 28u64) & 0x3fff < 16384,
        (g >> 42u64) & 0x3fff < 16384,
{
}

proof fn lemma_from_bytes_bounded(a: Seq<u8>)
    requires
        a.len() == POLY_BYTES,
    ensures
        bounded(poly_from_bytes_spec(a), 16384),
{
    assert forall|k: int| 0 <= k < N implies poly_from_bytes_spec(a)[k] < 16384 by {
        lemma_coeff_of_group_bound(group_at(a, k / 4));
    }
}

proof fn lemma_group_round_trip(t0: u16, t1: u16, t2: u16, t3: u16)
    by (bit_vector)
    requires
        t0 < 16384,
        t1 < 16384,
        t2 < 16384,
        t3 < 16384,
    ensures
        ({
            let g = (t0 as u64) | ((t1 as u64) << 14u64) | ((t2 as u64) << 28u64) | ((t3 as u64)
                << 42u64);
            let h = (((g >> 0u64) & 0xff) as u8 as u64) | ((((g >> 8u64) & 0xff) as u8 as u64)
                << 8u64) | ((((g >> 16u64) & 0xff) as u8 as u64) << 16u64) | ((((g >> 24u64)
                & 0xff) as u8 as u64) << 24u64) | ((((g >> 32u64) & 0xff) as u8 as u64) << 32u64)
                | ((((g >> 40u64) & 0xff) as u8 as u64) << 40u64) | ((((g >> 48u64) & 0xff) as u8
                as u64) << 48u64);
            &&& ((h >> 0u64) & 0x3fff) as u16 == t0
            &&& ((h >> 14u64) & 0x3fff) as u16 == t1
            &&& ((h >> 28u64) & 0x3fff) as u16 == t2
            &&& ((h >> 42u64) & 0x3fff) as u16 == t3
        }),
{
}

/// The canonical representative of every 16-bit value is below Q.
proof fn lemma_freeze_below_q(x: u16)
    ensures
        freeze_spec(x) < 12289,
{
    crate::reduce::lemma_barrett_spec(x);
}

/// Reading back the bytes that `poly_tobytes` writes gives every coefficient's canonical
/// representative in [0, Q).
pub proof fn lemma_poly_bytes_read_back(p: Seq<u16>)
    requires
        p.len() == N,
    ensures
        poly_from_bytes_spec(poly_to_bytes_spec(p)) == Seq::new(N as nat, |i: int| freeze_spec(p[i])),
{
    let b = poly_to_bytes_spec(p);
    assert forall|k: int| 0 <= k < N implies poly_from_bytes_spec(b)[k] == freeze_spec(p[k]) by {
        let g = k / 4;
        assert(0 <= g < 256);
        let t0 = freeze_spec(p[4 * g]);
        let t1 = freeze_spec(p[4 * g + 1]);
        let t2 = freeze_spec(p[4 * g + 2]);
        let t3 = freeze_spec(p[4 * g + 3]);
        lemma_freeze_below_q(p[4 * g]);
        lemma_freeze_below_q(p[4 * g + 1]);
        lemma_freeze_below_q(p[4 * g + 2]);
        lemma_freeze_below_q(p[4 * g + 3]);
        lemma_group_round_trip(t0, t1, t2, t3);
        assert forall|m: int| 0 <= m < 7 implies b[7 * g + m] == byte_of_group(
            pack14(t0, t1, t2, t3),
            m,
        ) by {
            assert((7 * g + m) / 7 == g);
            assert((7 * g + m) % 7 == m);
        }
        assert(b[7 * g + 0] == byte_of_group(pack14(t0, t1, t2, t3), 0));
        assert(k == 4 * g + k % 4);
    }
    assert(poly_from_bytes_spec(b) =~= Seq::new(N as nat, |i: int| freeze_spec(p[i])));
}

/// Serialization loses nothing on canonical polynomials: reading back the bytes that
/// `poly_tobytes` writes for a polynomial with every coefficient below Q gives that polynomial.
pub proof fn lemma_poly_bytes_round_trip(p: Seq<u16>)
    requires
        p.len() == N,
        bounded(p, Q as int),
    ensures
        poly_from_bytes_spec(poly_to_bytes_spec(p)) == p,
{
    lemma_poly_bytes_read_back(p);
    assert forall|i: int| 0 <= i < N implies freeze_spec(#[trigger] p[i]) == p[i] by {
        let x = p[i] as int;
        assert((5 * x) / 65536 == 0);
    }
    assert(Seq::new(N as nat, |i: int| freeze_spec(p[i])) =~= p);
}

/// Forward transform in place: from the canonical domain to the transform domain,
/// `ntt_spec(r)`. Every output coefficient is below 2^14.
pub fn ntt(r: &mut [u16])
    requires
        old(r)@.len() == N,
    ensures
        final(r)@ == ntt_spec(old(r)@),
        bounded(final(r)@, 16384),
{
    let psis = psis_bitrev_montgomery();
    assert(psis@ =~= psis_bitrev_table());
    mul_coefficients(r, &psis);
    let omegas = omegas_montgomery();
    assert(omegas@ =~= omegas_table());
    fft(r, &omegas);
}

/// Inverse transform in place: from the transform domain back to the canonical domain,
/// `invntt_spec(r)`. Inputs must be below 2^14, as `ntt` and `pointwise` produce them.
pub fn invntt(r: &mut [u16])
    requires
        old(r)@.len() == N,
        bounded(old(r)@, 16384),
    ensures
        final(r)@ == invntt_spec(old(r)@),
{
    bitrev_vector(r);
    proof {
        assert forall|i: int| 0 <= i < N implies r@[i] < 16384 by {
            crate::ntt::lemma_bitrev_bounds(i as usize);
        }
    }
    let omegas_inv = omegas_inv_montgomery();
    assert(omegas_inv@ =~= omegas_inv_table());
    fft(r, &omegas_inv);
    let psis_inv = psis_inv_montgomery();
    assert(psis_inv@ =~= psis_inv_table());
    mul_coefficients(r, &psis_inv);
}

/// Bytes of one block of the SHAKE-128 stream.
const SHAKE128_RATE: usize = 168;

/// Blocks of the stream read at first; a second, longer read covers the rare seeds
/// that need more.
const FIRST_BLOCKS: usize = 13;

/// Blocks of the second read.
const MORE_BLOCKS: usize = 32;

/// Word w of a byte string: bytes 2w and 2w + 1, little-endian.
pub open spec fn word_at(buf: Seq<u8>, w: int) -> int {
    buf[2 * w] + 256 * buf[2 * w + 1]
}

/// The coefficients that the first `w` words of `buf` yield, in order: a word below 5Q
/// is accepted and reduced modulo Q, any other is rejected.
pub open spec fn accepted(buf: Seq<u8>, w: nat) -> Seq<u16>
    decreases w,
{
    if w == 0 {
        Seq::empty()
    } else {
        let prev = accepted(buf, (w - 1) as nat);
        let x = word_at(buf, w - 1);
        if x < 61445 {
            prev.push((x % 12289) as u16)
        } else {
            prev
        }
    }
}

/// The polynomial that rejection sampling draws from `buf`: its first N accepted
/// coefficients, zeros past the end when it yields fewer.
pub open spec fn sample_poly(buf: Seq<u8>) -> Seq<u16> {
    let acc = accepted(buf, buf.len() / 2);
    Seq::new(N as nat, |i: int| if i < acc.len() { acc[i] } else { 0u16 })
}

/// Whether `buf` yields at least N accepted coefficients.
pub open spec fn sample_complete(buf: Seq<u8>) -> bool {
    accepted(buf, buf.len() / 2).len() >= N
}

/// The public polynomial expanded from a seed: rejection sampling on the first 13
/// blocks of the SHAKE-128 stream of the seed, or on its first 32 blocks when 13 do
/// not yield N coefficients.
pub open spec fn uniform_spec(seed: Seq<u8>) -> Seq<u16> {
    let first = shake128_output(seed, 2184);
    if sample_complete(first) {
        sample_poly(first)
    } else {
        sample_poly(shake128_output(seed, 5376))
    }
}

proof fn lemma_accepted_prefix(buf: Seq<u8>, w1: nat, w2: nat)
    requires
        w1 <= w2,
    ensures
        accepted(buf, w1).len() <= accepted(buf, w2).len(),
        forall|i: int| 0 <= i < accepted(buf, w1).len() ==> accepted(buf, w1)[i] == accepted(buf, w2)[i],
        accepted(buf, w2).len() <= w2,
        forall|i: int| 0 <= i < accepted(buf, w2).len() ==> accepted(buf, w2)[i] < 12289,
    decreases w2,
{
    if w2 > 0 {
        let w = (w2 - 1) as nat;
        if w1 <= w {
            lemma_accepted_prefix(buf, w1, w);
        } else {
            lemma_accepted_prefix(buf, w, w);
        }
    }
}

/// Rejection sampling on a byte string: returns `sample_poly(buf)` and whether the
/// string yielded all N coefficients.
pub fn poly_from_stream(buf: &[u8]) -> (res: ([u16; N], bool))
    ensures
        res.0@ == sample_poly(buf@),
        res.1 == sample_complete(buf@),
        bounded(res.0@, Q as int),
{
    let mut a = [0u16; N];
    let mut ctr: usize = 0;
    let mut w: usize = 0;
    let len = buf.len();
    let words = len / 2;
    while ctr < N && w < words
        invariant
            len == buf@.len(),
            words == buf@.len() / 2,
            w <= words,
            a@.len() == N,
            ctr == accepted(buf@, w as nat).len(),
            ctr <= N,
            forall|i: int| 0 <= i < ctr ==> a@[i] == accepted(buf@, w as nat)[i],
            forall|i: int| ctr <= i < N ==> a@[i] == 0,
        decreases words - w,
    {
        assert(2 * w + 2 <= buf@.len());
        let val = read_u16_le(vstd::slice::slice_subrange(buf, 2 * w, 2 * w + 2));
        assert(val == word_at(buf@, w as int));
        let r = val / 12289;
        if r < 5 {
            a[ctr] = val - (r as u16) * 12289;
            ctr += 1;
        }
        w += 1;
    }
    proof {
        let total = (buf@.len() / 2) as nat;
        lemma_accepted_prefix(buf@, w as nat, total);
        assert(a@ =~= sample_poly(buf@));
    }
    (a, ctr == N)
}

/// Expands the public polynomial from `nonce` into `a`: `uniform_spec(nonce)`.
pub fn uniform(a: &mut [u16], nonce: &[u8])
    requires
        old(a)@.len() == N,
    ensures
        final(a)@ == uniform_spec(nonce@),
        bounded(final(a)@, Q as int),
{
    let buf = shake128(nonce, SHAKE128_RATE * FIRST_BLOCKS);
    let (first, complete) = poly_from_stream(buf.as_slice());
    let p = if complete {
        first
    } else {
        let more = shake128(nonce, SHAKE128_RATE * MORE_BLOCKS);
        poly_from_stream(more.as_slice()).0
    };
    for i in 0..N
        invariant
            a@.len() == N,
            p@ == uniform_spec(nonce@),
            forall|k: int| 0 <= k < i ==> a@[k] == p@[k],
    {
        a[i] = p[i];
    }
    proof {
        assert(a@ =~= p@);
    }
}

/// The number of set bits among the low 16 bits of t.
pub open spec fn low_weight(t: u32) -> int {
    ((t >> 0u32) & 1u32) + ((t >> 1u32) & 1u32) + ((t >> 2u32) & 1u32) + ((t >> 3u32) & 1u32) + ((t >> 4u32) & 1u32) + ((t >> 5u32) & 1u32) + ((t >> 6u32) & 1u32) + ((t >> 7u32) & 1u32) + ((t >> 8u32) & 1u32) + ((t >> 9u32) & 1u32) + ((t >> 10u32) & 1u32) + ((t >> 11u32) & 1u32) + ((t >> 12u32) & 1u32) + ((t >> 13u32) & 1u32) + ((t >> 14u32) & 1u32) + ((t >> 15u32) & 1u32)
}

/// The number of set bits among the high 16 bits of t.
pub open spec fn high_weight(t: u32) -> int {
    ((t >> 16u32) & 1u32) + ((t >> 17u32) & 1u32) + ((t >> 18u32) & 1u32) + ((t >> 19u32) & 1u32) + ((t >> 20u32) & 1u32) + ((t >> 21u32) & 1u32) + ((t >> 22u32) & 1u32) + ((t >> 23u32) & 1u32) + ((t >> 24u32) & 1u32) + ((t >> 25u32) & 1u32) + ((t >> 26u32) & 1u32) + ((t >> 27u32) & 1u32) + ((t >> 28u32) & 1u32) + ((t >> 29u32) & 1u32) + ((t >> 30u32) & 1u32) + ((t >> 31u32) & 1u32)
}

/// The noise coefficient drawn from the random word t: the weight of its low half,
/// plus Q, minus the weight of its high half.
pub open spec fn noise_coeff(t: u32) -> u16 {
    (low_weight(t) + 12289 - high_weight(t)) as u16
}

/// The noise polynomial drawn from N random words.
pub open spec fn noise_spec(words: Seq<u32>) -> Seq<u16> {
    Seq::new(N as nat, |i: int| noise_coeff(words[i]))
}

proof fn lemma_byte_weights(t: u32)
    by (bit_vector)
    ensures
        ({
            let d = ((t & 0x01010101u32) + ((t >> 1u32) & 0x01010101u32) + ((t >> 2u32) & 0x01010101u32) + ((t >> 3u32) & 0x01010101u32) + ((t >> 4u32) & 0x01010101u32) + ((t >> 5u32) & 0x01010101u32) + ((t >> 6u32) & 0x01010101u32) + ((t >> 7u32) & 0x01010101u32)) as u32;
            &&& ((d >> 8u32) & 0xffu32) + (d & 0xffu32) == ((t >> 0u32) & 1u32) + ((t >> 1u32) & 1u32) + ((t >> 2u32) & 1u32) + ((t >> 3u32) & 1u32) + ((t >> 4u32) & 1u32) + ((t >> 5u32) & 1u32) + ((t >> 6u32) & 1u32) + ((t >> 7u32) & 1u32) + ((t >> 8u32) & 1u32) + ((t >> 9u32) & 1u32) + ((t >> 10u32) & 1u32) + ((t >> 11u32) & 1u32) + ((t >> 12u32) & 1u32) + ((t >> 13u32) & 1u32) + ((t >> 14u32) & 1u32) + ((t >> 15u32) & 1u32)
            &&& (d >> 24u32) + ((d >> 16u32) & 0xffu32) == ((t >> 16u32) & 1u32) + ((t >> 17u32) & 1u32) + ((t >> 18u32) & 1u32) + ((t >> 19u32) & 1u32) + ((t >> 20u32) & 1u32) + ((t >> 21u32) & 1u32) + ((t >> 22u32) & 1u32) + ((t >> 23u32) & 1u32) + ((t >> 24u32) & 1u32) + ((t >> 25u32) & 1u32) + ((t >> 26u32) & 1u32) + ((t >> 27u32) & 1u32) + ((t >> 28u32) & 1u32) + ((t >> 29u32) & 1u32) + ((t >> 30u32) & 1u32) + ((t >> 31u32) & 1u32)
            &&& ((d >> 8u32) & 0xffu32) + (d & 0xffu32) <= 16
            &&& (d >> 24u32) + ((d >> 16u32) & 0xffu32) <= 16
        }),
        (t & 0x01010101u32) <= 0x01010101,
        ((t >> 1u32) & 0x01010101u32) <= 0x01010101,
        ((t >> 2u32) & 0x01010101u32) <= 0x01010101,
        ((t >> 3u32) & 0x01010101u32) <= 0x01010101,
        ((t >> 4u32) & 0x01010101u32) <= 0x01010101,
        ((t >> 5u32) & 0x01010101u32) <= 0x01010101,
        ((t >> 6u32) & 0x01010101u32) <= 0x01010101,
        ((t >> 7u32) & 0x01010101u32) <= 0x01010101,
{
}

/// Draws the noise polynomial from N random words: `noise_spec(words)`. Each
/// coefficient lies in [Q - 16, Q + 16].
pub fn noise_from_words(r: &mut [u16], words: &[u32])
    requires
        old(r)@.len() == N,
        words@.len() == N,
    ensures
        final(r)@ == noise_spec(words@),
        forall|i: int| 0 <= i < N ==> 12289 - 16 <= #[trigger] final(r)@[i] <= 12289 + 16,
{
    for i in 0..N
        invariant
            r@.len() == N,
            words@.len() == N,
            forall|k: int| 0 <= k < i ==> r@[k] == noise_spec(words@)[k],
            forall|k: int| 0 <= k < i ==> 12289 - 16 <= #[trigger] r@[k] <= 12289 + 16,
    {
        let t = words[i];
        proof {
            lemma_byte_weights(t);
        }
        let d: u32 = (t & 0x01010101) + ((t >> 1) & 0x01010101) + ((t >> 2) & 0x01010101) + ((t >> 3)
            & 0x01010101) + ((t >> 4) & 0x01010101) + ((t >> 5) & 0x01010101) + ((t >> 6)
            & 0x01010101) + ((t >> 7) & 0x01010101);
        let a = ((d >> 8) & 0xff) + (d & 0xff);
        let b = (d >> 24) + ((d >> 16) & 0xff);
        r[i] = (a + 12289 - b) as u16;
    }
    proof {
        assert(r@ =~= noise_spec(words@));
    }
}

/// Samples a noise polynomial into `r` from N words of `rng`.
pub fn noise(r: &mut [u16], rng: &mut StdRng)
    requires
        old(r)@.len() == N,
    ensures
        exists|words: Seq<u32>| words.len() == N && final(r)@ == noise_spec(words),
{
    let words = random_words(rng, N);
    noise_from_words(r, words.as_slice());
}

/// `n` random words from `rng`.
pub(crate) fn random_words(rng: &mut StdRng, n: usize) -> (words: Vec<u32>)
    ensures
        words@.len() == n,
{
    let mut words: Vec<u32> = Vec::new();
    for i in 0..n
        invariant
            words@.len() == i,
    {
        words.push(random_u32(rng));
    }
    words
}

} // verus!
