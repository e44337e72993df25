//! Reconciliation: turning two close noisy vectors into one agreed bit string.
use vstd::prelude::*;
use crate::params::N;
use crate::primitives::random_bytes;
use rand::rngs::StdRng;

verus! {

/// Absolute value on integers.
pub open spec fn abs_int(x: int) -> int {
    if x < 0 {
        -x
    } else {
        x
    }
}

/// Rounding of x / 2Q up from the half: the first candidate of the 1-D decode.
pub open spec fn f_v0(x: int) -> int {
    (x / 12289 + 1) / 2
}

/// The second candidate of the 1-D decode: (x / Q) halved, rounded down.
pub open spec fn f_v1(x: int) -> int {
    (x / 12289) / 2
}

/// Distance from x to 2Q times the first candidate.
pub open spec fn f_val(x: int) -> int {
    abs_int(x - 24578 * f_v0(x))
}

/// Distance from x to the nearest multiple of 8Q (halves rounded up).
pub open spec fn g_val(x: int) -> int {
    abs_int(98312 * ((x / 49156 + 1) / 2) - x)
}

/// The 4-D lattice decode: 1 when the four distances sum to less than 8Q.
pub open spec fn ld_decode_spec(x0: int, x1: int, x2: int, x3: int) -> int {
    if g_val(x0) + g_val(x1) + g_val(x2) + g_val(x3) < 98312 {
        1
    } else {
        0
    }
}

proof fn lemma_shift_div(b: i32)
    by (bit_vector)
    requires
        0 <= b,
    ensures
        b >> 25i32 == b / 33554432i32,
        b >> 27i32 == b / 134217728i32,
{
}

proof fn lemma_sign_mask(y: i32)
    by (bit_vector)
    ensures
        y < 0 ==> y >> 31i32 == -1i32,
        y >= 0 ==> y >> 31i32 == 0i32,
{
}

proof fn lemma_halves_bits(t: i32)
    by (bit_vector)
    requires
        -1 <= t < 0x4000_0000,
    ensures
        t >= 0 ==> 2 * (t >> 1i32) + (t & 1i32) == t,
        t >= 0 ==> 0 <= t & 1i32 <= 1,
        t == -1i32 ==> t >> 1i32 == -1i32 && t & 1i32 == 1i32,
{
}

proof fn lemma_halves(t: i32)
    requires
        -1 <= t < 0x4000_0000,
    ensures
        t >= 0 ==> (t >> 1i32) + (t & 1i32) == (t + 1) / 2,
        t == -1 ==> (t >> 1i32) + (t & 1i32) == 0,
        t >= 0 ==> t & 1i32 == t % 2,
        t >= 0 ==> t >> 1i32 == t / 2,
{
    lemma_halves_bits(t);
}

proof fn lemma_abs_mask(d: i32)
    by (bit_vector)
    requires
        -0x4000_0000 < d < 0x4000_0000,
    ensures
        d < 0 ==> d >> 31i32 == -1i32,
        d >= 0 ==> d >> 31i32 == 0i32,
        d < 0 ==> (d ^ (d >> 31i32)) + d == -1,
        d >= 0 ==> d ^ (d >> 31i32) == d,
{
}

/// Absolute value, computed without branching.
fn abs_i32(d: i32) -> (r: i32)
    requires
        -0x4000_0000 < d < 0x4000_0000,
    ensures
        r == abs_int(d as int),
{
    proof {
        lemma_abs_mask(d);
    }
    let m = d >> 31;
    (d ^ m) - m
}

/// Integer division by Q of x in [0, 786624], through a multiply and a shift:
/// the estimate is x / Q or one below it, and one masked correction fixes it.
proof fn lemma_div_q(x: int)
    requires
        0 <= x <= 786624,
    ensures
        x / 12289 - 1 <= (2730 * x) / 33554432 <= x / 12289,
        0 <= x / 12289 <= 64,
        -12289 <= x - 24578 * ((x / 12289 + 1) / 2) < 12289,
{
    let t = x / 12289;
    let r = x % 12289;
    assert(x == 12289 * t + r && 0 <= r < 12289);
    assert(0 <= t <= 64);
    if t % 2 == 0 {
        assert((t + 1) / 2 == t / 2);
        assert(x - 24578 * ((t + 1) / 2) == r);
    } else {
        assert((t + 1) / 2 * 2 == t + 1);
        assert(x - 24578 * ((t + 1) / 2) == r - 12289);
    }
    assert(2730 * x == 33548970 * t + 2730 * r);
    assert(2730 * x < 33554432 * (t + 1));
    assert(2730 * x >= 33554432 * (t - 1));
}

proof fn lemma_div_4q(x: int)
    requires
        0 <= x <= 786624,
    ensures
        x / 49156 - 1 <= (2730 * x) / 134217728 <= x / 49156,
        0 <= x / 49156 <= 16,
        -49156 < 98312 * ((x / 49156 + 1) / 2) - x <= 49156,
{
    let t = x / 49156;
    let r = x % 49156;
    assert(x == 49156 * t + r && 0 <= r < 49156);
    assert(0 <= t <= 16);
    if t % 2 == 0 {
        assert((t + 1) / 2 == t / 2);
        assert(98312 * ((t + 1) / 2) - x == -r);
    } else {
        assert((t + 1) / 2 * 2 == t + 1);
        assert(98312 * ((t + 1) / 2) - x == 49156 - r);
    }
    assert(2730 * x == 134195880 * t + 2730 * r);
    assert(2730 * x < 134217728 * (t + 1));
    assert(2730 * x >= 134217728 * (t - 1));
}

/// The 1-D decode of x against the lattice 2Q·Z: writes the two candidate
/// decodings `f_v0(x)` and `f_v1(x)` and returns the distance `f_val(x)`.
fn f(v0: &mut i32, v1: &mut i32, x: i32) -> (r: i32)
    requires
        0 <= x <= 786624,
    ensures
        *final(v0) == f_v0(x as int),
        *final(v1) == f_v1(x as int),
        r == f_val(x as int),
        0 <= f_v1(x as int) <= f_v0(x as int) <= 32,
        0 <= r <= 12289,
{
    proof {
        lemma_div_q(x as int);
    }
    let mut b = x * 2730;
    proof {
        lemma_shift_div(b);
    }
    let mut t = b >> 25;
    b = x - t * 12289;
    b = 12288 - b;
    proof {
        lemma_sign_mask(b);
    }
    b >>= 31;
    t -= b;
    assert(t == x / 12289);
    proof {
        lemma_halves(t);
        lemma_halves((t - 1) as i32);
    }
    let mut r = t & 1;
    *v0 = (t >> 1) + r;
    t -= 1;
    r = t & 1;
    *v1 = (t >> 1) + r;
    abs_i32(x - (*v0 * 2 * 12289))
}

/// The distance `g_val(x)` from x to the nearest multiple of 8Q.
fn g(x: i32) -> (r: i32)
    requires
        0 <= x <= 786624,
    ensures
        r == g_val(x as int),
        0 <= r <= 49156,
{
    proof {
        lemma_div_4q(x as int);
    }
    let mut b = x * 2730;
    proof {
        lemma_shift_div(b);
    }
    let mut t = b >> 27;
    b = x - t * 49156;
    b = 49155 - b;
    proof {
        lemma_sign_mask(b);
    }
    b >>= 31;
    t -= b;
    assert(t == x / 49156);
    proof {
        lemma_halves(t);
    }
    let c = t & 1;
    t = (t >> 1) + c;
    assert(0 <= t <= 8);
    t = t * 98312;
    abs_i32(t - x)
}

/// The 4-D lattice decode: returns `ld_decode_spec`, 1 when the four distances to the
/// nearest multiples of 8Q sum to less than 8Q, else 0.
fn ld_decode(xi0: i32, xi1: i32, xi2: i32, xi3: i32) -> (r: i16)
    requires
        0 <= xi0 <= 786624,
        0 <= xi1 <= 786624,
        0 <= xi2 <= 786624,
        0 <= xi3 <= 786624,
    ensures
        r == ld_decode_spec(xi0 as int, xi1 as int, xi2 as int, xi3 as int),
{
    let mut t = g(xi0) + g(xi1) + g(xi2) + g(xi3);
    t -= 8 * 12289;
    proof {
        lemma_sign_mask(t);
    }
    t >>= 31;
    proof {
        lemma_halves_bits(t);
    }
    (t & 1) as i16
}

/// Bit `i` of a random byte string, least significant bit of each byte first.
pub open spec fn rand_bit(r: Seq<u8>, i: int) -> int {
    ((r[i / 8] >> ((i % 8) as u8)) & 1u8) as int
}

/// Coefficient `i + 256j` scaled by 8 and shifted by 4 when random bit `i` is set.
pub open spec fn helper_x(v: Seq<u16>, r: Seq<u8>, i: int, j: int) -> int {
    8 * v[i + 256 * j] + 4 * rand_bit(r, i)
}

/// Whether group `i` decodes to the second candidates: its four 1-D distances sum to 2Q or more.
pub open spec fn helper_sel(v: Seq<u16>, r: Seq<u8>, i: int) -> bool {
    f_val(helper_x(v, r, i, 0)) + f_val(helper_x(v, r, i, 1)) + f_val(helper_x(v, r, i, 2))
        + f_val(helper_x(v, r, i, 3)) >= 24578
}

/// The selected candidate for coefficient `i + 256j`.
pub open spec fn helper_vt(v: Seq<u16>, r: Seq<u8>, i: int, j: int) -> int {
    if helper_sel(v, r, i) {
        f_v1(helper_x(v, r, i, j))
    } else {
        f_v0(helper_x(v, r, i, j))
    }
}

/// Entry `i + 256j` of the reconciliation helper: for j < 3 the difference of the
/// selected candidates of coefficients i + 256j and i + 768, modulo 4; for j = 3 twice
/// the selected candidate of coefficient i + 768 plus the selection bit, modulo 4.
#[verifier::opaque]
pub open spec fn helper_entry(v: Seq<u16>, r: Seq<u8>, i: int, j: int) -> u16 {
    (if j < 3 {
        (helper_vt(v, r, i, j) - helper_vt(v, r, i, 3)) % 4
    } else {
        ((if helper_sel(v, r, i) {
            1int
        } else {
            0int
        }) + 2 * helper_vt(v, r, i, 3)) % 4
    }) as u16
}

/// The reconciliation helper for `v` under the random bits `r`, group by group:
/// group i holds coefficients i, i + 256, i + 512 and i + 768.
pub open spec fn helprec_spec(v: Seq<u16>, r: Seq<u8>) -> Seq<u16> {
    Seq::new(N as nat, |p: int| helper_entry(v, r, p % 256, p / 256))
}

proof fn lemma_select(k: i32, a: i32, b: i32)
    by (bit_vector)
    ensures
        k == 0i32 ==> (!k & a) ^ (k & b) == a,
        k == -1i32 ==> (!k & a) ^ (k & b) == b,
{
}

proof fn lemma_low_two_bits(y: i32)
    by (bit_vector)
    requires
        -1000 <= y <= 1000,
    ensures
        (y & 3i32) + 4 * (y >> 2i32) == y,
        0 <= y & 3i32 <= 3,
{
}

proof fn lemma_mod4(y: i32)
    requires
        -1000 <= y <= 1000,
    ensures
        y & 3i32 == y % 4,
{
    lemma_low_two_bits(y);
    let q = y >> 2i32;
    vstd::arithmetic::div_mod::lemma_fundamental_div_mod_converse(y as int, 4, q as int, (y
        & 3i32) as int);
}

/// The four helper entries of group `i`.
fn helprec_group(v: &[u16], r: &[u8], i: usize) -> (res: (u16, u16, u16, u16))
    requires
        v@.len() == N,
        r@.len() == 32,
        i < 256,
    ensures
        res.0 == helper_entry(v@, r@, i as int, 0),
        res.1 == helper_entry(v@, r@, i as int, 1),
        res.2 == helper_entry(v@, r@, i as int, 2),
        res.3 == helper_entry(v@, r@, i as int, 3),
        res.0 < 4 && res.1 < 4 && res.2 < 4 && res.3 < 4,
{
    reveal(helper_entry);
    let sh: u8 = (i % 8) as u8;
    let byte = r[i / 8];
    let bit = (byte >> sh) & 1;
    proof {
        assert(bit == rand_bit(r@, i as int));
        assert(bit <= 1) by (bit_vector)
            requires
                bit == (byte >> sh) & 1u8,
        ;
    }
    let rbit = bit as i32;
    let (mut a0, mut b0, mut a1, mut b1) = (0i32, 0i32, 0i32, 0i32);
    let (mut a2, mut b2, mut a3, mut b3) = (0i32, 0i32, 0i32, 0i32);
    let k0 = f(&mut a0, &mut b0, 8 * v[i] as i32 + 4 * rbit);
    let k1 = f(&mut a1, &mut b1, 8 * v[256 + i] as i32 + 4 * rbit);
    let k2 = f(&mut a2, &mut b2, 8 * v[512 + i] as i32 + 4 * rbit);
    let k3 = f(&mut a3, &mut b3, 8 * v[768 + i] as i32 + 4 * rbit);
    let ghost ii = i as int;
    assert(helper_x(v@, r@, ii, 0) == 8 * v@[ii] + 4 * rbit);
    assert(helper_x(v@, r@, ii, 1) == 8 * v@[256 + ii] + 4 * rbit);
    assert(helper_x(v@, r@, ii, 2) == 8 * v@[512 + ii] + 4 * rbit);
    assert(helper_x(v@, r@, ii, 3) == 8 * v@[768 + ii] + 4 * rbit);
    let mut k = k0 + k1 + k2 + k3;
    proof {
        lemma_sign_mask((2 * 12289 - 1 - k) as i32);
    }
    k = (2 * 12289 - 1 - k) >> 31;
    proof {
        lemma_select(k, a0, b0);
        lemma_select(k, a1, b1);
        lemma_select(k, a2, b2);
        lemma_select(k, a3, b3);
    }
    let t0 = (!k & a0) ^ (k & b0);
    let t1 = (!k & a1) ^ (k & b1);
    let t2 = (!k & a2) ^ (k & b2);
    let t3 = (!k & a3) ^ (k & b3);
    let d0 = t0 - t3;
    let d1 = t1 - t3;
    let d2 = t2 - t3;
    let d3 = -k + 2 * t3;
    proof {
        lemma_mod4(d0);
        lemma_mod4(d1);
        lemma_mod4(d2);
        lemma_mod4(d3);
    }
    ((d0 & 3) as u16, (d1 & 3) as u16, (d2 & 3) as u16, (d3 & 3) as u16)
}

/// Computes the reconciliation helper of `v` under the 256 random bits of `r`
/// (bit i of the string steers group i): `helprec_spec(v, r)`.
pub fn helprec_with_bits(c: &mut [u16], v: &[u16], r: &[u8])
    requires
        old(c)@.len() == N,
        v@.len() == N,
        r@.len() == 32,
    ensures
        final(c)@ == helprec_spec(v@, r@),
        bounded_by_4(final(c)@),
{
    for i in 0..256
        invariant
            c@.len() == N,
            v@.len() == N,
            r@.len() == 32,
            forall|p: int| 0 <= p < N && p % 256 < i ==> c@[p] == helprec_spec(v@, r@)[p],
            forall|p: int| 0 <= p < N && p % 256 < i ==> c@[p] < 4,
    {
        let (e0, e1, e2, e3) = helprec_group(v, r, i);
        c[i] = e0;
        c[256 + i] = e1;
        c[512 + i] = e2;
        c[768 + i] = e3;
        proof {
            assert forall|p: int| 0 <= p < N && p % 256 <= i implies c@[p] == helprec_spec(
                v@,
                r@,
            )[p] && c@[p] < 4 by {
                if p % 256 == i {
                    assert(p == i + 256 * (p / 256));
                }
            }
        }
    }
    proof {
        assert(c@ =~= helprec_spec(v@, r@));
    }
}

/// Computes the reconciliation helper of `v` under 256 bits drawn from `rng`.
pub fn helprec(c: &mut [u16], v: &[u16], rng: &mut StdRng)
    requires
        old(c)@.len() == N,
        v@.len() == N,
    ensures
        exists|r: Seq<u8>| r.len() == 32 && final(c)@ == helprec_spec(v@, r),
        bounded_by_4(final(c)@),
{
    let r = random_bytes(rng, 32);
    helprec_with_bits(c, v, r.as_slice());
}

/// Every entry is a 2-bit value.
pub open spec fn bounded_by_4(c: Seq<u16>) -> bool {
    forall|i: int| 0 <= i < c.len() ==> c[i] < 4
}

/// Input `j` of the 4-D decode of group `i` in `rec`: coefficient i + 256j scaled by 8,
/// moved by the helper's hints, plus 16Q.
pub open spec fn rec_input(v: Seq<u16>, c: Seq<u16>, i: int, j: int) -> int {
    if j < 3 {
        196624 + 8 * v[i + 256 * j] - 12289 * (2 * c[i + 256 * j] + c[i + 768])
    } else {
        196624 + 8 * v[i + 768] - 12289 * c[i + 768]
    }
}

/// The agreed bit of group `i`.
pub open spec fn rec_bit(v: Seq<u16>, c: Seq<u16>, i: int) -> int {
    ld_decode_spec(rec_input(v, c, i, 0), rec_input(v, c, i, 1), rec_input(v, c, i, 2), rec_input(v, c, i, 3))
}

/// Byte `b` of the key: the bits of groups 8b to 8b + 7, least significant first.
#[verifier::opaque]
pub open spec fn rec_byte(v: Seq<u16>, c: Seq<u16>, b: int) -> u8 {
    (rec_bit(v, c, 8 * b) + 2 * rec_bit(v, c, 8 * b + 1) + 4 * rec_bit(v, c, 8 * b + 2) + 8
        * rec_bit(v, c, 8 * b + 3) + 16 * rec_bit(v, c, 8 * b + 4) + 32 * rec_bit(v, c, 8 * b + 5)
        + 64 * rec_bit(v, c, 8 * b + 6) + 128 * rec_bit(v, c, 8 * b + 7)) as u8
}

/// The 32-byte key that reconciliation of `v` under helper `c` yields.
pub open spec fn rec_spec(v: Seq<u16>, c: Seq<u16>) -> Seq<u8> {
    Seq::new(32, |b: int| rec_byte(v, c, b))
}

/// The agreed bit of group `i`, as computed.
fn rec_group(v: &[u16], c: &[u16], i: usize) -> (r: u8)
    requires
        v@.len() == N,
        c@.len() == N,
        bounded_by_4(c@),
        i < 256,
    ensures
        r == rec_bit(v@, c@, i as int),
        r <= 1,
{
    let c3 = c[768 + i] as i32;
    let x0 = 16 * 12289 + 8 * v[i] as i32 - 12289 * (2 * c[i] as i32 + c3);
    let x1 = 16 * 12289 + 8 * v[256 + i] as i32 - 12289 * (2 * c[256 + i] as i32 + c3);
    let x2 = 16 * 12289 + 8 * v[512 + i] as i32 - 12289 * (2 * c[512 + i] as i32 + c3);
    let x3 = 16 * 12289 + 8 * v[768 + i] as i32 - 12289 * c3;
    ld_decode(x0, x1, x2, x3) as u8
}

proof fn lemma_pack_bits(k0: u8, k1: u8, k2: u8, k3: u8, k4: u8, k5: u8, k6: u8, k7: u8)
    by (bit_vector)
    requires
        k0 <= 1 && k1 <= 1 && k2 <= 1 && k3 <= 1 && k4 <= 1 && k5 <= 1 && k6 <= 1 && k7 <= 1,
    ensures
        k0 | (k1 << 1u8) | (k2 << 2u8) | (k3 << 3u8) | (k4 << 4u8) | (k5 << 5u8) | (k6 << 6u8) | (
        k7 << 7u8) == k0 + 2 * k1 + 4 * k2 + 8 * k3 + 16 * k4 + 32 * k5 + 64 * k6 + 128 * k7,
{
}

/// Reconciles `v` under helper `c` into the 32-byte key `rec_spec(v, c)`: bit i of the
/// key (least significant bit of each byte first) is the 4-D decode of group i.
pub fn rec(key: &mut [u8], v: &[u16], c: &[u16])
    requires
        old(key)@.len() == 32,
        v@.len() == N,
        c@.len() == N,
        bounded_by_4(c@),
    ensures
        final(key)@ == rec_spec(v@, c@),
{
    for b in 0..32
        invariant
            key@.len() == 32,
            v@.len() == N,
            c@.len() == N,
            bounded_by_4(c@),
            forall|k: int| 0 <= k < b ==> key@[k] == rec_byte(v@, c@, k),
    {
        let k0 = rec_group(v, c, 8 * b);
        let k1 = rec_group(v, c, 8 * b + 1);
        let k2 = rec_group(v, c, 8 * b + 2);
        let k3 = rec_group(v, c, 8 * b + 3);
        let k4 = rec_group(v, c, 8 * b + 4);
        let k5 = rec_group(v, c, 8 * b + 5);
        let k6 = rec_group(v, c, 8 * b + 6);
        let k7 = rec_group(v, c, 8 * b + 7);
        proof {
            lemma_pack_bits(k0, k1, k2, k3, k4, k5, k6, k7);
            reveal(rec_byte);
        }
        key[b] = k0 | (k1 << 1) | (k2 << 2) | (k3 << 3) | (k4 << 4) | (k5 << 5) | (k6 << 6) | (k7
            << 7);
    }
    proof {
        assert(key@ =~= rec_spec(v@, c@));
    }
}

} // verus!
