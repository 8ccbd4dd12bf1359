use graviola::encoding::{limbs_from_be_bytes, limbs_to_be_bytes, word_from_be, word_to_be};
use graviola::limbs::{adc, and_not, is_zero_word, mac, or_word, sbb, select_word};
use graviola::montgomery::{bignum_modadd, bignum_modsub, bignum_montmul, bignum_montredc, bignum_reduce_once};
use graviola::random::rng_outcome;
use graviola::error::Error;

#[test]
fn bytes_to_limbs_and_back() {
    let bytes: Vec<u8> = (1..=32u8).collect();
    let limbs = limbs_from_be_bytes::<4>(&bytes);
    assert_eq!(
        limbs,
        [0x191a1b1c1d1e1f20, 0x1112131415161718, 0x090a0b0c0d0e0f10, 0x0102030405060708]
    );
    let mut out = vec![0xeeu8; 34];
    limbs_to_be_bytes::<4>(&mut out, 1, &limbs);
    assert_eq!(out[0], 0xee);
    assert_eq!(out[33], 0xee);
    assert_eq!(&out[1..33], &bytes[..]);
}

#[test]
fn words_to_and_from_bytes() {
    let b = [0xffu8, 0x01, 0x23, 0x45, 0x67, 0x89, 0xab, 0xcd, 0xef, 0x00];
    assert_eq!(word_from_be(&b, 1), 0x0123456789abcdef);
    assert_eq!(word_from_be(&b, 0), 0xff0123456789abcd);
    let mut out = [0x11u8; 10];
    word_to_be(&mut out, 2, 0xfedcba9876543210);
    assert_eq!(out, [0x11, 0x11, 0xfe, 0xdc, 0xba, 0x98, 0x76, 0x54, 0x32, 0x10]);
}

#[test]
fn single_word_primitives() {
    let m = 0xffff_ffff_ffff_ffffu64;
    assert_eq!(mac(m, m, m, m), (m, m));
    assert_eq!(mac(3, 5, 7, 11), (33, 0));
    assert_eq!(adc(m, m, 1), (m, 1));
    assert_eq!(adc(1, 2, 0), (3, 0));
    assert_eq!(sbb(0, 0, 1), (m, 1));
    assert_eq!(sbb(0, m, 1), (0, 1));
    assert_eq!(sbb(5, 3, 1), (1, 0));
    assert_eq!(select_word(1, 7, 9), 7);
    assert_eq!(select_word(0, 7, 9), 9);
    assert_eq!(and_not(1, 0), 1);
    assert_eq!(and_not(1, 1), 0);
    assert_eq!(and_not(0, 0), 0);
    assert_eq!(and_not(0, 1), 0);
    assert_eq!(or_word(0, 0), 0);
    assert_eq!(or_word(0x10, 0x01), 0x11);
    assert_eq!(is_zero_word(0), 1);
    assert_eq!(is_zero_word(1), 0);
    assert_eq!(is_zero_word(m), 0);
}

#[test]
fn montgomery_arithmetic_on_one_limb() {
    let m = [97u64];
    // the word w with 97 w == -1 (mod 2^64): Newton's iteration for the
    // inverse of 97, negated
    let mut inv = 1u64;
    for _ in 0..6 {
        inv = inv.wrapping_mul(2u64.wrapping_sub(97u64.wrapping_mul(inv)));
    }
    let w = inv.wrapping_neg();
    assert_eq!(97u64.wrapping_mul(w).wrapping_add(1), 0);
    // R = 2^64 mod 97 and its inverse
    let r = ((1u128 << 64) % 97) as u64;
    let r_inv = (1..97u64).find(|i| (i * r) % 97 == 1).unwrap();
    for (x, y) in [(5u64, 7u64), (96, 96), (0, 50), (1, 1)] {
        let mut z = [0u64];
        let mut t = [0u64; 2];
        bignum_montmul(&mut z, &[x], &[y], &m, w, &mut t);
        assert_eq!(z[0], (x * y * r_inv) % 97);
    }
    let mut z = [0u64];
    let mut t = [96u64 * 96, 0];
    bignum_montredc(&mut z, &mut t, &m, w);
    assert_eq!(z[0], (96 * 96 * r_inv) % 97);
    bignum_modadd(&mut z, &[90], &[10], &m);
    assert_eq!(z, [3]);
    bignum_modsub(&mut z, &[10], &[90], &m);
    assert_eq!(z, [17]);
    let mut u = [100u64];
    bignum_reduce_once(&mut u, 0, &m);
    assert_eq!(u, [3]);
    let mut v = [50u64];
    bignum_reduce_once(&mut v, 0, &m);
    assert_eq!(v, [50]);
}

#[test]
fn a_failed_random_source_is_reported() {
    assert_eq!(rng_outcome(false), Err(Error::RngFailed));
    assert_eq!(rng_outcome(true), Ok(()));
}
