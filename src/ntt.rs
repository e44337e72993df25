//! The number-theoretic transform over Z_q[x]/(x^1024 + 1) and its tables.
use vstd::prelude::*;
use crate::params::N;
use crate::reduce::{
    montgomery_reduce, barrett_reduce, montgomery_reduce_spec, barrett_reduce_spec, mont_factor,
    lemma_montgomery_spec, lemma_barrett_spec,
};

verus! {

/// base^e modulo Q.
pub open spec fn pow_mod(base: int, e: nat) -> int
    decreases e,
{
    if e == 0 {
        1
    } else {
        (pow_mod(base, (e - 1) as nat) * base) % 12289
    }
}

/// The 10-bit reversal of i.
pub open spec fn bitrev10(i: usize) -> usize {
    ((i & 1) << 9usize) | ((i & 2) << 7usize) | ((i & 4) << 5usize) | ((i & 8) << 3usize) | ((i
        & 16) << 1usize) | ((i & 32) >> 1usize) | ((i & 64) >> 3usize) | ((i & 128) >> 5usize) | ((i
        & 256) >> 7usize) | ((i & 512) >> 9usize)
}

/// The 9-bit reversal of i.
pub open spec fn bitrev9(i: usize) -> usize {
    ((i & 1) << 8usize) | ((i & 2) << 6usize) | ((i & 4) << 4usize) | ((i & 8) << 2usize) | (i
        & 16) | ((i & 32) >> 2usize) | ((i & 64) >> 4usize) | ((i & 128) >> 6usize) | ((i & 256)
        >> 8usize)
}

/// psi = 7, a primitive 2048-th root of unity modulo Q.
pub open spec fn psi() -> int {
    7
}

/// psi^-1 modulo Q.
pub open spec fn psi_inv() -> int {
    8778
}

/// omega = psi^2 = 49, a primitive 1024-th root of unity modulo Q.
pub open spec fn omega() -> int {
    49
}

/// omega^-1 modulo Q.
pub open spec fn omega_inv() -> int {
    1254
}

/// Entry i of the forward scaling table: psi^bitrev10(i) in Montgomery form (times 2^18).
pub open spec fn psis_bitrev_entry(i: int) -> u16 {
    ((pow_mod(psi(), bitrev10(i as usize) as nat) * 4075) % 12289) as u16
}

/// Entry i of the inverse scaling table: psi^-i / 1024 in Montgomery form.
pub open spec fn psis_inv_entry(i: int) -> u16 {
    ((pow_mod(psi_inv(), i as nat) * 256) % 12289) as u16
}

/// Entry i of the forward root table: omega^bitrev9(i) in Montgomery form.
pub open spec fn omegas_entry(i: int) -> u16 {
    ((pow_mod(omega(), bitrev9(i as usize) as nat) * 4075) % 12289) as u16
}

/// Entry i of the inverse root table: omega^-bitrev9(i) in Montgomery form.
pub open spec fn omegas_inv_entry(i: int) -> u16 {
    ((pow_mod(omega_inv(), bitrev9(i as usize) as nat) * 4075) % 12289) as u16
}

pub(crate) proof fn lemma_bitrev_bounds(i: usize)
    by (bit_vector)
    ensures
        bitrev10(i) < 1024,
        bitrev9(i) < 512,
{
}

/// The powers base^0 .. base^1023 modulo Q.
fn powers(base: u32) -> (pw: [u16; N])
    requires
        base < 12289,
    ensures
        forall|k: int| 0 <= k < N ==> pw@[k] == pow_mod(base as int, k as nat),
        forall|k: int| 0 <= k < N ==> pw@[k] < 12289,
{
    let mut pw = [0u16; N];
    pw[0] = 1;
    for k in 1..N
        invariant
            base < 12289,
            pw@.len() == N,
            forall|m: int| 0 <= m < k ==> pw@[m] == pow_mod(base as int, m as nat),
            forall|m: int| 0 <= m < k ==> pw@[m] < 12289,
    {
        let prev = pw[k - 1] as u32;
        assert(prev * base < 12289 * 12289) by (nonlinear_arith)
            requires
                prev < 12289,
                base < 12289,
        ;
        pw[k] = ((prev * base) % 12289) as u16;
    }
    pw
}

fn bitrev10_exec(i: usize) -> (r: usize)
    ensures
        r == bitrev10(i),
        r < 1024,
{
    proof {
        lemma_bitrev_bounds(i);
    }
    ((i & 1) << 9) | ((i & 2) << 7) | ((i & 4) << 5) | ((i & 8) << 3) | ((i & 16) << 1) | ((i
        & 32) >> 1) | ((i & 64) >> 3) | ((i & 128) >> 5) | ((i & 256) >> 7) | ((i & 512) >> 9)
}

fn bitrev9_exec(i: usize) -> (r: usize)
    ensures
        r == bitrev9(i),
        r < 512,
{
    proof {
        lemma_bitrev_bounds(i);
    }
    ((i & 1) << 8) | ((i & 2) << 6) | ((i & 4) << 4) | ((i & 8) << 2) | (i & 16) | ((i & 32)
        >> 2) | ((i & 64) >> 4) | ((i & 128) >> 6) | ((i & 256) >> 8)
}

/// The forward scaling table: psi^bitrev10(i) in Montgomery form.
pub fn psis_bitrev_montgomery() -> (t: [u16; N])
    ensures
        forall|i: int| 0 <= i < N ==> t@[i] == psis_bitrev_entry(i),
        forall|i: int| 0 <= i < N ==> t@[i] < 12289,
{
    let pw = powers(7);
    let mut t = [0u16; N];
    for i in 0..N
        invariant
            t@.len() == N,
            forall|k: int| 0 <= k < N ==> pw@[k] == pow_mod(7, k as nat),
            forall|k: int| 0 <= k < N ==> pw@[k] < 12289,
            forall|k: int| 0 <= k < i ==> t@[k] == psis_bitrev_entry(k),
            forall|k: int| 0 <= k < i ==> t@[k] < 12289,
    {
        let x = pw[bitrev10_exec(i)] as u32;
        t[i] = ((x * 4075) % 12289) as u16;
    }
    t
}

/// The inverse scaling table: psi^-i / 1024 in Montgomery form.
pub fn psis_inv_montgomery() -> (t: [u16; N])
    ensures
        forall|i: int| 0 <= i < N ==> t@[i] == psis_inv_entry(i),
        forall|i: int| 0 <= i < N ==> t@[i] < 12289,
{
    let pw = powers(8778);
    let mut t = [0u16; N];
    for i in 0..N
        invariant
            t@.len() == N,
            forall|k: int| 0 <= k < N ==> pw@[k] == pow_mod(8778, k as nat),
            forall|k: int| 0 <= k < N ==> pw@[k] < 12289,
            forall|k: int| 0 <= k < i ==> t@[k] == psis_inv_entry(k),
            forall|k: int| 0 <= k < i ==> t@[k] < 12289,
    {
        let x = pw[i] as u32;
        t[i] = ((x * 256) % 12289) as u16;
    }
    t
}

/// The forward root table: omega^bitrev9(i) in Montgomery form.
pub fn omegas_montgomery() -> (t: [u16; 512])
    ensures
        forall|i: int| 0 <= i < 512 ==> t@[i] == omegas_entry(i),
        forall|i: int| 0 <= i < 512 ==> t@[i] < 12289,
{
    let pw = powers(49);
    let mut t = [0u16; 512];
    for i in 0..512
        invariant
            t@.len() == 512,
            forall|k: int| 0 <= k < N ==> pw@[k] == pow_mod(49, k as nat),
            forall|k: int| 0 <= k < N ==> pw@[k] < 12289,
            forall|k: int| 0 <= k < i ==> t@[k] == omegas_entry(k),
            forall|k: int| 0 <= k < i ==> t@[k] < 12289,
    {
        let x = pw[bitrev9_exec(i)] as u32;
        t[i] = ((x * 4075) % 12289) as u16;
    }
    t
}

/// The inverse root table: omega^-bitrev9(i) in Montgomery form.
pub fn omegas_inv_montgomery() -> (t: [u16; 512])
    ensures
        forall|i: int| 0 <= i < 512 ==> t@[i] == omegas_inv_entry(i),
        forall|i: int| 0 <= i < 512 ==> t@[i] < 12289,
{
    let pw = powers(1254);
    let mut t = [0u16; 512];
    for i in 0..512
        invariant
            t@.len() == 512,
            forall|k: int| 0 <= k < N ==> pw@[k] == pow_mod(1254, k as nat),
            forall|k: int| 0 <= k < N ==> pw@[k] < 12289,
            forall|k: int| 0 <= k < i ==> t@[k] == omegas_inv_entry(k),
            forall|k: int| 0 <= k < i ==> t@[k] < 12289,
    {
        let x = pw[bitrev9_exec(i)] as u32;
        t[i] = ((x * 4075) % 12289) as u16;
    }
    t
}

/// Position p is the lower element of its butterfly pair at level l (bit l of p is clear).
pub open spec fn is_low(p: usize, l: usize) -> bool {
    (p >> l) & 1 == 0
}

/// The value at position p after butterfly level l of the transform with root table
/// `om`: the lower element of each pair (distance 2^l apart) becomes the sum, Barrett
/// reduced when `reduce` holds, and the upper one the Montgomery-reduced product of the
/// root `om[p >> (l + 1)]` with the difference plus 3Q.
pub open spec fn butterfly_at(a: Seq<u16>, om: Seq<u16>, l: usize, reduce: bool, p: int) -> u16 {
    let d = (1usize << l) as int;
    if is_low(p as usize, l) {
        let s = a[p] + a[p + d];
        (if reduce {
            barrett_reduce_spec(s)
        } else {
            s
        }) as u16
    } else {
        montgomery_reduce_spec(om[((p as usize) >> (l + 1)) as int] * (a[p - d] + 36867 - a[p]))
            as u16
    }
}

/// One butterfly level of the transform.
pub open spec fn level_spec(a: Seq<u16>, om: Seq<u16>, l: usize, reduce: bool) -> Seq<u16> {
    Seq::new(N as nat, |p: int| butterfly_at(a, om, l, reduce, p))
}

/// The first `lv` levels of the transform: distance 2^l at level l, and a Barrett
/// reduction of the sums on every odd level.
pub open spec fn fft_spec(a: Seq<u16>, om: Seq<u16>, lv: nat) -> Seq<u16>
    decreases lv,
{
    if lv == 0 {
        a
    } else {
        let l = (lv - 1) as nat;
        level_spec(fft_spec(a, om, l), om, l as usize, l % 2 == 1)
    }
}

/// Coefficient-wise Montgomery product with a table.
pub open spec fn mul_coefficients_spec(a: Seq<u16>, f: Seq<u16>) -> Seq<u16> {
    Seq::new(N as nat, |i: int| montgomery_reduce_spec(a[i] * f[i]) as u16)
}

/// The coefficients in 10-bit-reversed order.
pub open spec fn bitrev_spec(a: Seq<u16>) -> Seq<u16> {
    Seq::new(N as nat, |i: int| a[bitrev10(i as usize) as int])
}

/// Every entry is below `bound`.
pub open spec fn all_below(a: Seq<u16>, bound: int) -> bool {
    forall|i: int| 0 <= i < a.len() ==> a[i] < bound
}

proof fn lemma_level_bits(p: usize, l: usize)
    by (bit_vector)
    requires
        p < 1024,
        l < 10,
    ensures
        (p >> l) & 1 == 0 ==> p + (1usize << l) < 1024 && (((p + (1usize << l)) as usize) >> l)
            & 1 != 0 && ((p + (1usize << l)) as usize) >> (l + 1) == p >> (l + 1),
        (p >> l) & 1 != 0 ==> p >= (1usize << l) && (((p - (1usize << l)) as usize) >> l) & 1
            == 0 && ((p - (1usize << l)) as usize) >> (l + 1) == p >> (l + 1),
        p >> (l + 1) < 512,
        1 <= (1usize << l) <= 512,
{
}

proof fn lemma_butterfly_values(x: u16, y: u16, w: u16)
    requires
        x < 32768,
        y < 32768,
        w < 12289,
    ensures
        0 <= w * (x + 36867 - y) <= 855662592,
        montgomery_reduce_spec(w * (x + 36867 - y)) < 16384,
{
    let z = x + 36867 - y;
    assert(0 <= w * z <= 12288 * 69634) by (nonlinear_arith)
        requires
            0 <= z <= 69634,
            0 <= w <= 12288,
    ;
    assert(0 <= crate::reduce::mont_factor(w * z) < 262144);
}

/// Whether the butterfly that holds position q comes before position p in a pass over
/// the lower elements.
pub open spec fn done_before(q: int, p: int, l: usize) -> bool {
    if is_low(q as usize, l) {
        q < p
    } else {
        q - (1usize << l) < p
    }
}

/// The bound that level l's outputs meet, or its inputs when `input` holds.
pub open spec fn level_bound(reduce: bool, output: bool) -> int {
    if reduce == output {
        16384
    } else {
        32768
    }
}

/// Butterfly level l in place: every position p with bit l clear is paired with p + 2^l.
fn fft_level(a: &mut [u16], om: &[u16; 512], l: usize, reduce: bool)
    requires
        old(a)@.len() == N,
        l < 10,
        all_below(om@, 12289),
        all_below(old(a)@, level_bound(reduce, false)),
    ensures
        final(a)@ == level_spec(old(a)@, om@, l, reduce),
        all_below(final(a)@, level_bound(reduce, true)),
{
    let ghost a0 = a@;
    let ghost new = level_spec(a0, om@, l, reduce);
    let d: usize = 1usize << l;
    assert forall|q: int| 0 <= q < N implies !done_before(q, 0, l) by {
        lemma_level_bits(q as usize, l);
    }
    for p in 0..N
        invariant
            a@.len() == N,
            a0.len() == N,
            l < 10,
            d == 1usize << l,
            new == level_spec(a0, om@, l, reduce),
            all_below(om@, 12289),
            all_below(a0, level_bound(reduce, false)),
            forall|q: int|
                0 <= q < N ==> #[trigger] a@[q] == if done_before(q, p as int, l) {
                    new[q]
                } else {
                    a0[q]
                },
            forall|q: int|
                0 <= q < N && done_before(q, p as int, l) ==> #[trigger] a@[q] < level_bound(
                    reduce,
                    true,
                ),
    {
        proof {
            lemma_level_bits(p, l);
        }
        if (p >> l) & 1 == 0 {
            let h = p + d;
            let x = a[p];
            let y = a[h];
            let w = om[p >> (l + 1)];
            proof {
                lemma_level_bits(h, l);
                assert(x == a0[p as int]);
                assert(y == a0[h as int]);
                lemma_butterfly_values(x, y, w);
            }
            if reduce {
                a[p] = barrett_reduce(x + y);
            } else {
                a[p] = x + y;
            }
            a[h] = montgomery_reduce(w as u32 * (x as u32 + 36867 - y as u32));
        }
        proof {
            assert forall|q: int| 0 <= q < N implies #[trigger] a@[q] == (if done_before(
                q,
                p + 1,
                l,
            ) {
                new[q]
            } else {
                a0[q]
            }) && (done_before(q, p + 1, l) ==> a@[q] < level_bound(reduce, true)) by {
                lemma_level_bits(q as usize, l);
            }
        }
    }
    proof {
        assert forall|q: int| 0 <= q < N implies done_before(q, N as int, l) by {
            lemma_level_bits(q as usize, l);
        }
        assert(a@ =~= new);
    }
}

/// The whole in-place transform: ten butterfly levels, distances 1 to 512, with the
/// roots of `om`.
pub fn fft(a: &mut [u16], om: &[u16; 512])
    requires
        old(a)@.len() == N,
        all_below(om@, 12289),
        all_below(old(a)@, 16384),
    ensures
        final(a)@ == fft_spec(old(a)@, om@, 10),
        all_below(final(a)@, 16384),
{
    let ghost a0 = a@;
    for l in 0..10
        invariant
            a@.len() == N,
            all_below(om@, 12289),
            a@ == fft_spec(a0, om@, l as nat),
            all_below(a@, level_bound(l % 2 == 1, false)),
    {
        fft_level(a, om, l, l % 2 == 1);
    }
}

/// a[i] = a[i] * f[i] / 2^18 modulo Q, by Montgomery reduction.
pub fn mul_coefficients(a: &mut [u16], f: &[u16; N])
    requires
        old(a)@.len() == N,
        all_below(f@, 12289),
    ensures
        final(a)@ == mul_coefficients_spec(old(a)@, f@),
        all_below(final(a)@, 15361),
{
    let ghost a0 = a@;
    for i in 0..N
        invariant
            a@.len() == N,
            a0.len() == N,
            all_below(f@, 12289),
            forall|k: int| 0 <= k < i ==> a@[k] == mul_coefficients_spec(a0, f@)[k],
            forall|k: int| 0 <= k < i ==> a@[k] < 15361,
            forall|k: int| i <= k < N ==> a@[k] == a0[k],
    {
        let x = a[i] as u32;
        let y = f[i] as u32;
        assert(x * y <= 65535 * 12288) by (nonlinear_arith)
            requires
                x <= 65535,
                y <= 12288,
        ;
        assert(0 <= crate::reduce::mont_factor((x * y) as int) < 262144);
        a[i] = montgomery_reduce(x * y);
    }
    proof {
        assert(a@ =~= mul_coefficients_spec(a0, f@));
    }
}

/// Permutes the coefficients into 10-bit-reversed order.
pub fn bitrev_vector(a: &mut [u16])
    requires
        old(a)@.len() == N,
    ensures
        final(a)@ == bitrev_spec(old(a)@),
{
    let mut t = [0u16; N];
    for i in 0..N
        invariant
            a@.len() == N,
            t@.len() == N,
            forall|k: int| 0 <= k < i ==> t@[k] == bitrev_spec(a@)[k],
    {
        t[i] = a[bitrev10_exec(i)];
    }
    let ghost a0 = a@;
    for i in 0..N
        invariant
            a@.len() == N,
            t@ == bitrev_spec(a0),
            forall|k: int| 0 <= k < i ==> a@[k] == t@[k],
    {
        a[i] = t[i];
    }
    proof {
        assert(a@ =~= bitrev_spec(a0));
    }
}

/// The forward scaling table as a sequence.
pub open spec fn psis_bitrev_table() -> Seq<u16> {
    Seq::new(N as nat, |i: int| psis_bitrev_entry(i))
}

/// The inverse scaling table as a sequence.
pub open spec fn psis_inv_table() -> Seq<u16> {
    Seq::new(N as nat, |i: int| psis_inv_entry(i))
}

/// The forward root table as a sequence.
pub open spec fn omegas_table() -> Seq<u16> {
    Seq::new(512, |i: int| omegas_entry(i))
}

/// The inverse root table as a sequence.
pub open spec fn omegas_inv_table() -> Seq<u16> {
    Seq::new(512, |i: int| omegas_inv_entry(i))
}

/// The forward transform: scale by psi^bitrev10(i), then the ten butterfly levels with
/// the forward roots.
pub open spec fn ntt_spec(p: Seq<u16>) -> Seq<u16> {
    fft_spec(mul_coefficients_spec(p, psis_bitrev_table()), omegas_table(), 10)
}

/// The inverse transform: bit-reversal, the ten butterfly levels with the inverse roots,
/// then scaling by psi^-i / 1024.
pub open spec fn invntt_spec(p: Seq<u16>) -> Seq<u16> {
    mul_coefficients_spec(fft_spec(bitrev_spec(p), omegas_inv_table(), 10), psis_inv_table())
}

/// Coefficient-wise, `c` is congruent to `a + k·b` modulo Q.
pub open spec fn congruent_combination(c: Seq<u16>, a: Seq<u16>, b: Seq<u16>, k: int) -> bool {
    forall|i: int| 0 <= i < N ==> #[trigger] c[i] % 12289 == (a[i] + k * b[i]) % 12289
}

proof fn lemma_mod_diff(x: int, y: int)
    requires
        x % 12289 == y % 12289,
    ensures
        x - y == 12289 * (x / 12289 - y / 12289),
{
}

proof fn lemma_mod_from_diff(x: int, y: int, k: int)
    requires
        x - y == 12289 * k,
    ensures
        x % 12289 == y % 12289,
{
    vstd::arithmetic::div_mod::lemma_mod_multiples_vanish(k, y, 12289);
}

/// Multiplication by 2^18 can be cancelled modulo Q.
proof fn lemma_cancel_radix(u: int, v: int)
    requires
        (u * 262144) % 12289 == (v * 262144) % 12289,
    ensures
        u % 12289 == v % 12289,
{
    lemma_mod_diff(u * 262144, v * 262144);
    let k = (u * 262144) / 12289 - (v * 262144) / 12289;
    let d = u - v;
    assert(d == 12289 * (576 * k - 12287 * d)) by (nonlinear_arith)
        requires
            u * 262144 - v * 262144 == 12289 * k,
            d == u - v,
    ;
    lemma_mod_from_diff(u, v, 576 * k - 12287 * d);
}

/// Montgomery reduction keeps a relation z3 ≡ z1 + k·z2 modulo Q between three inputs.
proof fn lemma_mont_linear(z3: int, z1: int, z2: int, k: int, m: int)
    requires
        0 <= z1 < 0x1_0000_0000,
        0 <= z2 < 0x1_0000_0000,
        0 <= z3 < 0x1_0000_0000,
        z3 - z1 - k * z2 == 12289 * m,
    ensures
        montgomery_reduce_spec(z3) % 12289 == (montgomery_reduce_spec(z1) + k
            * montgomery_reduce_spec(z2)) % 12289,
{
    lemma_montgomery_spec(z1 as u32);
    lemma_montgomery_spec(z2 as u32);
    lemma_montgomery_spec(z3 as u32);
    let r1 = montgomery_reduce_spec(z1);
    let r2 = montgomery_reduce_spec(z2);
    let r3 = montgomery_reduce_spec(z3);
    let f1 = mont_factor(z1);
    let f2 = mont_factor(z2);
    let f3 = mont_factor(z3);
    assert(r3 * 262144 - (r1 + k * r2) * 262144 == 12289 * (m + f3 - f1 - k * f2))
        by (nonlinear_arith)
        requires
            r1 * 262144 == z1 + f1 * 12289,
            r2 * 262144 == z2 + f2 * 12289,
            r3 * 262144 == z3 + f3 * 12289,
            z3 - z1 - k * z2 == 12289 * m,
    ;
    lemma_mod_from_diff(r3 * 262144, (r1 + k * r2) * 262144, m + f3 - f1 - k * f2);
    lemma_cancel_radix(r3, r1 + k * r2);
}

/// Each butterfly level keeps the bounds that the next level needs.
proof fn lemma_level_bounds(a: Seq<u16>, om: Seq<u16>, l: usize, reduce: bool)
    requires
        a.len() == N,
        om.len() == 512,
        l < 10,
        all_below(om, 12289),
        all_below(a, level_bound(reduce, false)),
    ensures
        all_below(level_spec(a, om, l, reduce), level_bound(reduce, true)),
{
    assert forall|p: int| 0 <= p < N implies level_spec(a, om, l, reduce)[p] < level_bound(
        reduce,
        true,
    ) by {
        lemma_level_bits(p as usize, l);
        let d = (1usize << l) as int;
        if is_low(p as usize, l) {
            if reduce {
                lemma_barrett_spec((a[p] + a[p + d]) as u16);
            }
        } else {
            lemma_butterfly_values(a[p - d], a[p], om[((p as usize) >> (l + 1)) as int]);
        }
    }
}

/// Each butterfly level is linear modulo Q.
proof fn lemma_level_linear(
    a3: Seq<u16>,
    a1: Seq<u16>,
    a2: Seq<u16>,
    k: int,
    om: Seq<u16>,
    l: usize,
    reduce: bool,
)
    requires
        a1.len() == N,
        a2.len() == N,
        a3.len() == N,
        om.len() == 512,
        l < 10,
        all_below(om, 12289),
        all_below(a1, level_bound(reduce, false)),
        all_below(a2, level_bound(reduce, false)),
        all_below(a3, level_bound(reduce, false)),
        congruent_combination(a3, a1, a2, k),
    ensures
        congruent_combination(
            level_spec(a3, om, l, reduce),
            level_spec(a1, om, l, reduce),
            level_spec(a2, om, l, reduce),
            k,
        ),
{
    let b1 = level_spec(a1, om, l, reduce);
    let b2 = level_spec(a2, om, l, reduce);
    let b3 = level_spec(a3, om, l, reduce);
    assert forall|p: int| 0 <= p < N implies #[trigger] b3[p] % 12289 == (b1[p] + k * b2[p])
        % 12289 by {
        lemma_level_bits(p as usize, l);
        let d = (1usize << l) as int;
        let q = if is_low(p as usize, l) {
            p + d
        } else {
            p - d
        };
        assert(a3[p] % 12289 == (a1[p] + k * a2[p]) % 12289);
        assert(a3[q] % 12289 == (a1[q] + k * a2[q]) % 12289);
        lemma_mod_diff(a3[p] as int, a1[p] + k * a2[p]);
        lemma_mod_diff(a3[q] as int, a1[q] + k * a2[q]);
        let kp = a3[p] as int / 12289 - (a1[p] + k * a2[p]) / 12289;
        let kq = a3[q] as int / 12289 - (a1[q] + k * a2[q]) / 12289;
        if is_low(p as usize, l) {
            let s1 = a1[p] + a1[q];
            let s2 = a2[p] + a2[q];
            let s3 = a3[p] + a3[q];
            if reduce {
                lemma_barrett_spec(s1 as u16);
                lemma_barrett_spec(s2 as u16);
                lemma_barrett_spec(s3 as u16);
                lemma_mod_diff(b1[p] as int, s1);
                lemma_mod_diff(b2[p] as int, s2);
                lemma_mod_diff(b3[p] as int, s3);
                let m1 = b1[p] as int / 12289 - s1 / 12289;
                let m2 = b2[p] as int / 12289 - s2 / 12289;
                let m3 = b3[p] as int / 12289 - s3 / 12289;
                let x1 = b1[p] as int;
                let x2 = b2[p] as int;
                let x3 = b3[p] as int;
                assert(x3 - (x1 + k * x2) == 12289 * (kp + kq + m3 - m1 - k * m2))
                    by (nonlinear_arith)
                    requires
                        x1 - s1 == 12289 * m1,
                        x2 - s2 == 12289 * m2,
                        x3 - s3 == 12289 * m3,
                        s1 == a1[p] + a1[q],
                        s2 == a2[p] + a2[q],
                        s3 == a3[p] + a3[q],
                        a3[p] - (a1[p] + k * a2[p]) == 12289 * kp,
                        a3[q] - (a1[q] + k * a2[q]) == 12289 * kq,
                ;
                lemma_mod_from_diff(x3, x1 + k * x2, kp + kq + m3 - m1 - k * m2);
            } else {
                assert(s3 - (s1 + k * s2) == 12289 * (kp + kq)) by (nonlinear_arith)
                    requires
                        s1 == a1[p] + a1[q],
                        s2 == a2[p] + a2[q],
                        s3 == a3[p] + a3[q],
                        a3[p] - (a1[p] + k * a2[p]) == 12289 * kp,
                        a3[q] - (a1[q] + k * a2[q]) == 12289 * kq,
                ;
                lemma_mod_from_diff(b3[p] as int, b1[p] + k * b2[p], kp + kq);
            }
        } else {
            let w = om[((p as usize) >> (l + 1)) as int] as int;
            lemma_butterfly_values(a1[q], a1[p], w as u16);
            lemma_butterfly_values(a2[q], a2[p], w as u16);
            lemma_butterfly_values(a3[q], a3[p], w as u16);
            let z1 = w * (a1[q] + 36867 - a1[p]);
            let z2 = w * (a2[q] + 36867 - a2[p]);
            let z3 = w * (a3[q] + 36867 - a3[p]);
            assert(z3 - z1 - k * z2 == 12289 * (w * (kq - kp) + 3 * w * (0 - k)))
                by (nonlinear_arith)
                requires
                    z1 == w * (a1[q] + 36867 - a1[p]),
                    z2 == w * (a2[q] + 36867 - a2[p]),
                    z3 == w * (a3[q] + 36867 - a3[p]),
                    a3[p] - (a1[p] + k * a2[p]) == 12289 * kp,
                    a3[q] - (a1[q] + k * a2[q]) == 12289 * kq,
            ;
            lemma_mont_linear(z3, z1, z2, k, w * (kq - kp) + 3 * w * (0 - k));
        }
    }
}

/// The ten butterfly levels are linear modulo Q on inputs below 2^14.
proof fn lemma_fft_linear(
    a3: Seq<u16>,
    a1: Seq<u16>,
    a2: Seq<u16>,
    k: int,
    om: Seq<u16>,
    lv: nat,
)
    requires
        a1.len() == N,
        a2.len() == N,
        a3.len() == N,
        om.len() == 512,
        lv <= 10,
        all_below(om, 12289),
        all_below(a1, 16384),
        all_below(a2, 16384),
        all_below(a3, 16384),
        congruent_combination(a3, a1, a2, k),
    ensures
        congruent_combination(fft_spec(a3, om, lv), fft_spec(a1, om, lv), fft_spec(a2, om, lv), k),
        fft_spec(a1, om, lv).len() == N,
        fft_spec(a2, om, lv).len() == N,
        fft_spec(a3, om, lv).len() == N,
        all_below(fft_spec(a1, om, lv), level_bound(lv % 2 == 1, false)),
        all_below(fft_spec(a2, om, lv), level_bound(lv % 2 == 1, false)),
        all_below(fft_spec(a3, om, lv), level_bound(lv % 2 == 1, false)),
    decreases lv,
{
    if lv > 0 {
        let l = (lv - 1) as nat;
        lemma_fft_linear(a3, a1, a2, k, om, l);
        let reduce = l % 2 == 1;
        lemma_level_bounds(fft_spec(a1, om, l), om, l as usize, reduce);
        lemma_level_bounds(fft_spec(a2, om, l), om, l as usize, reduce);
        lemma_level_bounds(fft_spec(a3, om, l), om, l as usize, reduce);
        lemma_level_linear(
            fft_spec(a3, om, l),
            fft_spec(a1, om, l),
            fft_spec(a2, om, l),
            k,
            om,
            l as usize,
            reduce,
        );
    }
}

/// Scaling by a table of entries below Q gives outputs below 15361.
proof fn lemma_mul_coefficients_bound(a: Seq<u16>, f: Seq<u16>)
    requires
        a.len() == N,
        f.len() == N,
        all_below(f, 12289),
    ensures
        all_below(mul_coefficients_spec(a, f), 15361),
{
    assert forall|i: int| 0 <= i < N implies #[trigger] mul_coefficients_spec(a, f)[i] < 15361 by {
        let z = a[i] * f[i];
        assert(0 <= z <= 65535 * 12288) by (nonlinear_arith)
            requires
                0 <= f[i] <= 12288,
                z == a[i] * f[i],
                0 <= a[i] <= 65535,
        ;
        lemma_montgomery_spec(z as u32);
    }
}

/// Scaling by a table of entries below Q is linear modulo Q.
proof fn lemma_mul_coefficients_linear(
    a3: Seq<u16>,
    a1: Seq<u16>,
    a2: Seq<u16>,
    k: int,
    f: Seq<u16>,
)
    requires
        a1.len() == N,
        a2.len() == N,
        a3.len() == N,
        f.len() == N,
        all_below(f, 12289),
        congruent_combination(a3, a1, a2, k),
    ensures
        congruent_combination(
            mul_coefficients_spec(a3, f),
            mul_coefficients_spec(a1, f),
            mul_coefficients_spec(a2, f),
            k,
        ),
        all_below(mul_coefficients_spec(a1, f), 15361),
        all_below(mul_coefficients_spec(a2, f), 15361),
        all_below(mul_coefficients_spec(a3, f), 15361),
{
    lemma_mul_coefficients_bound(a1, f);
    lemma_mul_coefficients_bound(a2, f);
    lemma_mul_coefficients_bound(a3, f);
    assert forall|i: int| 0 <= i < N implies #[trigger] mul_coefficients_spec(a3, f)[i] % 12289 == (
    mul_coefficients_spec(a1, f)[i] + k * mul_coefficients_spec(a2, f)[i]) % 12289 by {
        let x = f[i] as int;
        let z1 = a1[i] * x;
        let z2 = a2[i] * x;
        let z3 = a3[i] * x;
        assert(0 <= z1 <= 65535 * 12288 && 0 <= z2 <= 65535 * 12288 && 0 <= z3 <= 65535 * 12288)
            by (nonlinear_arith)
            requires
                0 <= x <= 12288,
                z1 == a1[i] * x,
                z2 == a2[i] * x,
                z3 == a3[i] * x,
                0 <= a1[i] <= 65535,
                0 <= a2[i] <= 65535,
                0 <= a3[i] <= 65535,
        ;
        assert(a3[i] % 12289 == (a1[i] + k * a2[i]) % 12289);
        lemma_mod_diff(a3[i] as int, a1[i] + k * a2[i]);
        let m = a3[i] as int / 12289 - (a1[i] + k * a2[i]) / 12289;
        assert(z3 - z1 - k * z2 == 12289 * (x * m)) by (nonlinear_arith)
            requires
                z1 == a1[i] * x,
                z2 == a2[i] * x,
                z3 == a3[i] * x,
                a3[i] - (a1[i] + k * a2[i]) == 12289 * m,
        ;
        lemma_mont_linear(z3, z1, z2, k, x * m);
    }
}

/// The forward transform is linear modulo Q: when every coefficient of `p3` is
/// congruent to that of `p1` plus k times that of `p2`, the same holds of their
/// transforms.
pub proof fn lemma_ntt_linear(p3: Seq<u16>, p1: Seq<u16>, p2: Seq<u16>, k: int)
    requires
        p1.len() == N,
        p2.len() == N,
        p3.len() == N,
        congruent_combination(p3, p1, p2, k),
    ensures
        congruent_combination(ntt_spec(p3), ntt_spec(p1), ntt_spec(p2), k),
{
    let f = psis_bitrev_table();
    lemma_mul_coefficients_linear(p3, p1, p2, k, f);
    lemma_fft_linear(
        mul_coefficients_spec(p3, f),
        mul_coefficients_spec(p1, f),
        mul_coefficients_spec(p2, f),
        k,
        omegas_table(),
        10,
    );
}

/// The inverse transform is linear modulo Q on the inputs it accepts (coefficients
/// below 2^14): when every coefficient of `p3` is congruent to that of `p1` plus k
/// times that of `p2`, the same holds of their inverse transforms.
pub proof fn lemma_invntt_linear(p3: Seq<u16>, p1: Seq<u16>, p2: Seq<u16>, k: int)
    requires
        p1.len() == N,
        p2.len() == N,
        p3.len() == N,
        all_below(p1, 16384),
        all_below(p2, 16384),
        all_below(p3, 16384),
        congruent_combination(p3, p1, p2, k),
    ensures
        congruent_combination(invntt_spec(p3), invntt_spec(p1), invntt_spec(p2), k),
{
    let b1 = bitrev_spec(p1);
    let b2 = bitrev_spec(p2);
    let b3 = bitrev_spec(p3);
    assert forall|i: int| 0 <= i < N implies #[trigger] b3[i] % 12289 == (b1[i] + k * b2[i])
        % 12289 by {
        lemma_bitrev_bounds(i as usize);
        let j = bitrev10(i as usize) as int;
        assert(p3[j] % 12289 == (p1[j] + k * p2[j]) % 12289);
    }
    assert forall|i: int| 0 <= i < N implies #[trigger] b1[i] < 16384 by {
        lemma_bitrev_bounds(i as usize);
    }
    assert forall|i: int| 0 <= i < N implies #[trigger] b2[i] < 16384 by {
        lemma_bitrev_bounds(i as usize);
    }
    assert forall|i: int| 0 <= i < N implies #[trigger] b3[i] < 16384 by {
        lemma_bitrev_bounds(i as usize);
    }
    lemma_fft_linear(b3, b1, b2, k, omegas_inv_table(), 10);
    lemma_mul_coefficients_linear(
        fft_spec(b3, omegas_inv_table(), 10),
        fft_spec(b1, omegas_inv_table(), 10),
        fft_spec(b2, omegas_inv_table(), 10),
        k,
        psis_inv_table(),
    );
}

} // verus!
