use newhope::error_correction::{helprec_with_bits, rec};
use newhope::newhope::{rec_frombytes, rec_tobytes};
use newhope::params::{N, POLY_BYTES, RECBYTES, SENDABYTES, SENDBBYTES};
use newhope::poly::{noise_from_words, poly_frombytes, poly_from_stream, poly_tobytes, Poly};
use newhope::{keygen, keygen_with, shareda, sharedb, sharedb_with};
use rand::rngs::StdRng;
use rand::{Rng, SeedableRng};
use tiny_keccak::{Hasher, Sha3};

fn exchange(seed_a: u64, seed_b: u64) -> ([u8; 32], [u8; 32]) {
    let mut rng_a = StdRng::seed_from_u64(seed_a);
    let mut rng_b = StdRng::seed_from_u64(seed_b);
    let (mut ska, mut pka) = ([0; POLY_BYTES], [0; SENDABYTES]);
    let (mut keya, mut keyb) = ([0; 32], [0; 32]);
    let mut sendb = [0; SENDBBYTES];
    keygen(&mut rng_a, &mut ska, &mut pka);
    sharedb(&mut rng_b, &mut keyb, &pka, &mut sendb);
    shareda(&mut keya, &ska, &sendb);
    (keya, keyb)
}

#[test]
fn test_newhope() {
    let (keya, keyb) = exchange(1, 2);
    assert!(keya != [0; 32]);
    assert_eq!(keya, keyb);
}

#[test]
fn exchanges_agree_over_many_seeds() {
    for seed in 0..20u64 {
        let (keya, keyb) = exchange(100 + seed, 200 + seed);
        assert_eq!(keya, keyb);
        assert!(keya != [0; 32]);
    }
}

#[test]
fn fixed_random_source_reproduces_the_exchange() {
    assert_eq!(exchange(7, 8), exchange(7, 8));
    assert_ne!(exchange(7, 8).0, exchange(7, 9).0);
}

#[test]
fn message_sizes() {
    let mut rng = StdRng::seed_from_u64(3);
    let (mut ska, mut pka) = ([0u8; POLY_BYTES], [0u8; SENDABYTES]);
    keygen(&mut rng, &mut ska, &mut pka);
    let mut keyb = [0u8; 32];
    let mut sendb = [0u8; SENDBBYTES];
    sharedb(&mut rng, &mut keyb, &pka, &mut sendb);
    assert_eq!(pka.len(), 1824);
    assert_eq!(sendb.len(), 2048);
    assert_eq!(keyb.len(), 32);
    assert_eq!(ska.len(), 1792);
    assert_eq!(RECBYTES, 256);
}

#[test]
fn shared_secret_is_the_digest_of_the_key_material() {
    let mut rng = StdRng::seed_from_u64(11);
    let (mut ska, mut pka) = ([0u8; POLY_BYTES], [0u8; SENDABYTES]);
    keygen(&mut rng, &mut ska, &mut pka);
    let mut keyb = [0u8; 32];
    let mut sendb = [0u8; SENDBBYTES];
    sharedb(&mut rng, &mut keyb, &pka, &mut sendb);
    let mut keya = [0u8; 32];
    shareda(&mut keya, &ska, &sendb);

    let sk = poly_frombytes(&ska);
    let pkb = poly_frombytes(&sendb[..POLY_BYTES]);
    let mut c = [0u16; N];
    rec_frombytes(&sendb[POLY_BYTES..], &mut c);
    let mut raw = [0u8; 32];
    newhope::newhope::shareda(&mut raw, &sk, &pkb, &c);
    let mut hasher = Sha3::v256();
    hasher.update(&raw);
    let mut digest = [0u8; 32];
    hasher.finalize(&mut digest);
    assert_eq!(keya, digest);
    assert_ne!(keya, raw);
}

#[test]
fn helper_bytes_round_trip() {
    let mut c = [0u16; N];
    for i in 0..N {
        c[i] = ((i * 7 + i / 3) % 4) as u16;
    }
    let mut bytes = [0u8; RECBYTES];
    rec_tobytes(&c, &mut bytes);
    assert_eq!(bytes[0], (c[0] | c[1] << 2 | c[2] << 4 | c[3] << 6) as u8);
    let mut back = [0u16; N];
    rec_frombytes(&bytes, &mut back);
    assert_eq!(back, c);
}

#[test]
fn poly_bytes_round_trip() {
    let mut rng = StdRng::seed_from_u64(5);
    let mut p = [0u16; N];
    for x in p.iter_mut() {
        *x = rng.gen_range(0..12289);
    }
    p[0] = 0;
    p[1] = 12288;
    let b = poly_tobytes(&p);
    assert_eq!(poly_frombytes(&b), p);
}

#[test]
fn poly_bytes_layout() {
    let mut p = [0u16; N];
    p[0] = 0x3fff % 12289;
    p[1] = 1;
    let b = poly_tobytes(&p);
    assert_eq!(b[0], (4094 & 0xff) as u8);
    assert_eq!(b[1], ((4094 >> 8) | (1 << 6)) as u8);
    assert_eq!(b[2], 0);
}

#[test]
fn stream_sampling_reads_little_endian_words() {
    let mut buf = vec![0u8; 2 * N + 4];
    buf[0] = 0x01;
    buf[1] = 0x02;
    buf[2] = 0xff;
    buf[3] = 0xff;
    buf[4] = 0x00;
    buf[5] = 0xf0;
    let (p, complete) = poly_from_stream(&buf);
    assert!(complete);
    assert_eq!(p[0], 0x0201);
    assert_eq!(p[1], 0xf000 - 4 * 12289);
    assert_eq!(p[2], 0);

    let (q, complete) = poly_from_stream(&buf[..8]);
    assert!(!complete);
    assert_eq!(q[0], 0x0201);
    assert_eq!(q[3], 0);
}

#[test]
fn noise_weights() {
    let mut words = [0u32; N];
    words[0] = 0x0000_ffff;
    words[1] = 0xffff_0000;
    words[2] = 0x0101_0303;
    let mut r = [0u16; N];
    noise_from_words(&mut r, &words);
    assert_eq!(r[0], 12289 + 16);
    assert_eq!(r[1], 12289 - 16);
    assert_eq!(r[2], 12289 + 4 - 2);
    assert_eq!(r[3], 12289);
}

#[test]
fn reconciliation_agrees_on_close_vectors() {
    let mut rng = StdRng::seed_from_u64(21);
    let mut v = [0u16; N];
    let mut w = [0u16; N];
    for i in 0..N {
        v[i] = rng.gen_range(0..12289);
        let e: i32 = rng.gen_range(-8..=8);
        w[i] = ((v[i] as i32 + e).rem_euclid(12289)) as u16;
    }
    let bits: [u8; 32] = rng.gen();
    let mut c = [0u16; N];
    helprec_with_bits(&mut c, &v, &bits);
    assert!(c.iter().all(|&x| x < 4));
    let (mut k1, mut k2) = ([0u8; 32], [0u8; 32]);
    rec(&mut k1, &v, &c);
    rec(&mut k2, &w, &c);
    assert_eq!(k1, k2);
}

#[test]
fn default_poly_is_zero() {
    let p = Poly::default();
    assert!(p.coeffs.iter().all(|&x| x == 0));
}

fn words(seed: u32) -> Vec<u32> {
    let mut x = seed.wrapping_mul(2654435761).wrapping_add(1);
    (0..N)
        .map(|_| {
            x ^= x << 13;
            x ^= x >> 17;
            x ^= x << 5;
            x
        })
        .collect()
}

#[test]
fn exchange_from_given_draws() {
    let nonce = [42u8; 32];
    let (mut ska, mut pka) = ([0u8; POLY_BYTES], [0u8; SENDABYTES]);
    keygen_with(&mut ska, &mut pka, &nonce, &words(1), &words(2));
    assert_eq!(&pka[POLY_BYTES..], &nonce);

    let mut keyb = [0u8; 32];
    let mut sendb = [0u8; SENDBBYTES];
    let bits = [0x5au8; 32];
    sharedb_with(&mut keyb, &pka, &mut sendb, &words(3), &words(4), &words(5), &bits);
    let mut keya = [0u8; 32];
    shareda(&mut keya, &ska, &sendb);
    assert_eq!(keya, keyb);
    assert!(keya != [0; 32]);

    let (mut ska2, mut pka2) = ([0u8; POLY_BYTES], [0u8; SENDABYTES]);
    keygen_with(&mut ska2, &mut pka2, &nonce, &words(1), &words(2));
    assert_eq!(ska, ska2);
    assert_eq!(pka, pka2);
}
