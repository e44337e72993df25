//! Montgomery and Barrett reduction modulo `Q`.
use vstd::prelude::*;

verus! {

/// The Montgomery radix used throughout: 2^18.
pub open spec fn mont_r() -> int {
    262144
}

/// -Q^-1 mod 2^18.
const QINV: u64 = 12287;

/// The multiple of Q that Montgomery reduction adds to its input.
pub open spec fn mont_factor(a: int) -> int {
    (a * 12287) % 262144
}

/// Montgomery reduction: (a + ((a * -Q^-1) mod 2^18) * Q) / 2^18.
pub open spec fn montgomery_reduce_spec(a: int) -> int {
    (a + mont_factor(a) * 12289) / 262144
}

/// Barrett reduction: a - floor(5a / 2^16) * Q.
pub open spec fn barrett_reduce_spec(a: int) -> int {
    a - ((5 * a) / 65536) * 12289
}

proof fn lemma_mont_exact(a: u64, u: u64, s: u64)
    by (bit_vector)
    requires
        a < 0x1_0000_0000,
        u == ((a * 12287u64) as u64) & 0x3ffff,
        s == (a + u * 12289u64) as u64,
    ensures
        u == ((a * 12287u64) as u64) % 262144,
        a * 12287u64 < 0x1_0000_0000_0000,
        a + u * 12289u64 < 0x2_0000_0000,
        s % 262144 == 0,
        s >> 18u64 == s / 262144,
        s / 262144 < 28673,
{
}

/// Montgomery reduction is exact on every 32-bit input: the result times 2^18 is the
/// input plus a multiple of Q below 2^18 * Q, and the result is below 2^16.
pub proof fn lemma_montgomery_spec(a: u32)
    ensures
        montgomery_reduce_spec(a as int) * mont_r() == a as int + mont_factor(a as int) * 12289,
        0 <= mont_factor(a as int) < mont_r(),
        0 <= montgomery_reduce_spec(a as int) < 28673,
        (montgomery_reduce_spec(a as int) * mont_r()) % 12289 == (a as int) % 12289,
{
    let x = a as u64;
    let u = ((x * 12287u64) as u64) & 0x3ffff;
    lemma_mont_exact(x, u, (x + u * 12289u64) as u64);
    let s = a as int + mont_factor(a as int) * 12289;
    assert(s % 262144 == 0);
    assert(s == (s / 262144) * 262144);
    vstd::arithmetic::div_mod::lemma_mod_multiples_vanish(mont_factor(a as int), a as int, 12289);
}

/// Returns a * 2^-18 modulo Q for every 32-bit `a`, as the exact value
/// `montgomery_reduce_spec(a)`: the result times 2^18 is `a` plus a multiple of Q below
/// 2^18 * Q.
pub fn montgomery_reduce(a: u32) -> (r: u16)
    ensures
        r == montgomery_reduce_spec(a as int),
        r as int * mont_r() == a as int + mont_factor(a as int) * 12289,
        0 <= mont_factor(a as int) < mont_r(),
        (r as int * mont_r()) % 12289 == (a as int) % 12289,
        r < 28673,
{
    proof {
        lemma_montgomery_spec(a);
    }
    let x = a as u64;
    proof {
        lemma_mont_exact(x, ((x * 12287u64) as u64) & 0x3ffff, (x + (((x * 12287u64) as u64)
            & 0x3ffff) * 12289u64) as u64);
    }
    let u = (x * QINV) & 0x3ffff;
    let s = x + u * 12289;
    (s >> 18) as u16
}

proof fn lemma_barrett(a: u32)
    by (bit_vector)
    requires
        a < 65536,
    ensures
        (((5 * a) as u32) >> 16u32) * 12289 <= a,
        a - (((5 * a) as u32) >> 16u32) * 12289 <= 16379,
        a < 12289 ==> (((5 * a) as u32) >> 16u32) == 0,
        ((5 * a) as u32) >> 16u32 == ((5 * a) as u32) / 65536,
        ((5 * a) as u32) == 5 * a,
{
}

/// Barrett reduction of a 16-bit value stays congruent, non-negative and at most 16379.
pub proof fn lemma_barrett_spec(a: u16)
    ensures
        0 <= barrett_reduce_spec(a as int) <= 16379,
        barrett_reduce_spec(a as int) % 12289 == a as int % 12289,
{
    lemma_barrett(a as u32);
    let k = (5 * a as int) / 65536;
    vstd::arithmetic::div_mod::lemma_mod_multiples_vanish(-k, a as int, 12289);
    assert(barrett_reduce_spec(a as int) == a as int + (-k) * 12289);
}

/// Reduces a 16-bit value to `barrett_reduce_spec(a)`: congruent to `a` modulo Q,
/// at most 16379, and `a` itself when `a` is already below Q.
pub fn barrett_reduce(a: u16) -> (r: u16)
    ensures
        r == barrett_reduce_spec(a as int),
        r as int % 12289 == a as int % 12289,
        r <= 16379,
        a < 12289 ==> r == a,
{
    proof {
        lemma_barrett(a as u32);
    }
    let mut u = (5 * a as u32) >> 16;
    u *= 12289u32;
    let r = a - u as u16;
    proof {
        let k = (5 * a as int) / 65536;
        vstd::arithmetic::div_mod::lemma_mod_multiples_vanish(-k, a as int, 12289);
        assert(r as int == a as int + (-k) * 12289);
    }
    r
}

} // verus!
