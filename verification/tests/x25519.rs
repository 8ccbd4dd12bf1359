use graviola::error::Error;
use graviola::x25519::{
    cswap, p25519_field, x25519, x25519_ladder_step, x25519_shared_secret, Ladder,
};

fn hex(s: &str) -> Vec<u8> {
    let digits: Vec<u8> = s.bytes().map(|c| (c as char).to_digit(16).unwrap() as u8).collect();
    digits.chunks(2).map(|d| d[0] * 16 + d[1]).collect()
}

fn call(scalar: &str, u: &str) -> Vec<u8> {
    let mut out = vec![0u8; 32];
    assert_eq!(x25519(&hex(scalar), &hex(u), &mut out), Ok(()));
    out
}

const BASE: &str = "0900000000000000000000000000000000000000000000000000000000000000";

#[test]
fn x25519_first_published_vector() {
    assert_eq!(
        call(
            "a546e36bf0527c9d3b16154b82465edd62144c0ac1fc5a18506a2244ba449ac4",
            "e6db6867583030db3594c1a424b15f7c726624ec26b3353b10a903a6d0ab1c4c"
        ),
        hex("c3da55379de9c6908e94ea4df28d084f32eccf03491c71f754b4075577a28552")
    );
}

#[test]
fn x25519_second_published_vector() {
    // the top bit of this coordinate is set and is not part of it
    assert_eq!(
        call(
            "4b66e9d4d1b4673c5ad22691957d6af5c11b6421e0ea01d42ca4169e7918ba0d",
            "e5210f12786811d3f4b7959d0538ae2c31dbe7106fc03c3efc4cd549c715a493"
        ),
        hex("95cbde9476e8907d7aade45cb4b873f88b595a68799fa152e6f8f7647aac7957")
    );
}

#[test]
fn x25519_iterated_once_and_a_thousand_times() {
    let mut k = hex(BASE);
    let mut u = hex(BASE);
    for i in 0..1000 {
        let mut r = vec![0u8; 32];
        assert_eq!(x25519(&k, &u, &mut r), Ok(()));
        u = k;
        k = r;
        if i == 0 {
            assert_eq!(k, hex("422c8e7a6227d7bca1350b3e2bb7279f7897b87bb6854b783c60e80311ae3079"));
        }
    }
    assert_eq!(k, hex("684cf59ba83309552800ef566f2f4d3c1c3887c49360e3875f2eb94d99532c51"));
}

#[test]
fn x25519_published_key_agreement() {
    let alice = "77076d0a7318a57d3c16c17251b26645df4c2f87ebc0992ab177fba51db92c2a";
    let bob = "5dab087e624a8a4b79e17f8b83800ee66f3bb1292618b6fd1c2f8b27ff88e0eb";
    let alice_public = "8520f0098930a754748b7ddcb43ef75a0dbf3a0d26381af4eba4a98eaa9b4e6a";
    let bob_public = "de9edb7d7b7dc1b4d35b61c2ece435373f8343c85b78674dadfc7e146f882b4f";
    let shared = "4a5d9d5ba4ce2de1728e3bf480350f25e07e21c947d19e3376f09b3c1e161742";
    assert_eq!(call(alice, BASE), hex(alice_public));
    assert_eq!(call(bob, BASE), hex(bob_public));
    assert_eq!(call(alice, bob_public), hex(shared));
    assert_eq!(call(bob, alice_public), hex(shared));
}

#[test]
fn x25519_clamps_the_scalar() {
    // the low three bits and the top two bits of the scalar do not matter
    let k = "77076d0a7318a57d3c16c17251b26645df4c2f87ebc0992ab177fba51db92c2a";
    let same = "70076d0a7318a57d3c16c17251b26645df4c2f87ebc0992ab177fba51db92c6a";
    let other = "71076d0a7318a57d3c16c17251b26645df4c2f87ebc0992ab177fba51db92cea";
    let differs = "7f076d0a7318a57d3c16c17251b26645df4c2f87ebc0992ab177fba51db92c2a";
    assert_ne!(call(k, BASE), call(differs, BASE));
    assert_eq!(call(k, BASE), call(same, BASE));
    assert_eq!(call(k, BASE), call(other, BASE));
}

#[test]
fn x25519_rejects_a_coordinate_that_is_not_below_the_prime() {
    let k = hex("77076d0a7318a57d3c16c17251b26645df4c2f87ebc0992ab177fba51db92c2a");
    let mut out = vec![0xa5u8; 32];
    // p itself, p + 3, and the largest value of 255 bits
    let p = "edffffffffffffffffffffffffffffffffffffffffffffffffffffffffffff7f";
    let p_plus_three = "f0ffffffffffffffffffffffffffffffffffffffffffffffffffffffffffff7f";
    let all_ones = "ffffffffffffffffffffffffffffffffffffffffffffffffffffffffffffff7f";
    assert_eq!(x25519(&k, &hex(p), &mut out), Err(Error::OutOfRange));
    assert_eq!(x25519(&k, &hex(p_plus_three), &mut out), Err(Error::OutOfRange));
    assert_eq!(x25519(&k, &hex(all_ones), &mut out), Err(Error::OutOfRange));
    // the top bit is not part of the coordinate: p with the top bit set is still p
    let p_top = "edffffffffffffffffffffffffffffffffffffffffffffffffffffffffffffff";
    assert_eq!(x25519(&k, &hex(p_top), &mut out), Err(Error::OutOfRange));
    assert_eq!(out, vec![0xa5u8; 32]);
}

#[test]
fn x25519_accepts_the_largest_coordinate_below_the_prime() {
    let k = "77076d0a7318a57d3c16c17251b26645df4c2f87ebc0992ab177fba51db92c2a";
    let p_less_one = "ecffffffffffffffffffffffffffffffffffffffffffffffffffffffffffff7f";
    let with_top_bit = "ecffffffffffffffffffffffffffffffffffffffffffffffffffffffffffffff";
    assert_eq!(call(k, p_less_one), hex("0000000000000000000000000000000000000000000000000000000000000000"));
    assert_eq!(call(k, with_top_bit), hex("0000000000000000000000000000000000000000000000000000000000000000"));
    let three = "0300000000000000000000000000000000000000000000000000000000000000";
    assert_eq!(call(k, three), hex("2b6282a3a5aa1380b79d8ed2f73811f182e35e17e25a86d23c4d2f65713a6b7f"));
}

#[test]
fn x25519_of_the_zero_coordinate_is_zero() {
    let k = "77076d0a7318a57d3c16c17251b26645df4c2f87ebc0992ab177fba51db92c2a";
    let zero = "00".repeat(32);
    assert_eq!(call(k, &zero), hex(&zero));
}

#[test]
fn x25519_rejects_wrong_lengths() {
    let k = hex("77076d0a7318a57d3c16c17251b26645df4c2f87ebc0992ab177fba51db92c2a");
    let u = hex(BASE);
    let mut out = vec![0xa5u8; 32];
    assert_eq!(x25519(&k[..31], &u, &mut out), Err(Error::WrongLength));
    assert_eq!(x25519(&k, &u[..31], &mut out), Err(Error::WrongLength));
    assert_eq!(x25519(&k, &[], &mut out), Err(Error::WrongLength));
    assert_eq!(out, vec![0xa5u8; 32]);
    let mut short = vec![0xa5u8; 31];
    assert_eq!(x25519(&k, &u, &mut short), Err(Error::WrongLength));
    assert_eq!(short, vec![0xa5u8; 31]);
}

#[test]
fn shared_secret_is_the_function_on_ordinary_points() {
    let alice = hex("77076d0a7318a57d3c16c17251b26645df4c2f87ebc0992ab177fba51db92c2a");
    let bob_public = hex("de9edb7d7b7dc1b4d35b61c2ece435373f8343c85b78674dadfc7e146f882b4f");
    let mut out = vec![0u8; 32];
    assert_eq!(x25519_shared_secret(&alice, &bob_public, &mut out), Ok(()));
    assert_eq!(out, hex("4a5d9d5ba4ce2de1728e3bf480350f25e07e21c947d19e3376f09b3c1e161742"));
}

#[test]
fn shared_secret_turns_down_an_all_zero_outcome() {
    let k = hex("77076d0a7318a57d3c16c17251b26645df4c2f87ebc0992ab177fba51db92c2a");
    let mut out = vec![0xa5u8; 32];
    // the points 0 and 1 have small order
    let zero = vec![0u8; 32];
    let mut one = vec![0u8; 32];
    one[0] = 1;
    assert_eq!(x25519_shared_secret(&k, &zero, &mut out), Err(Error::NotOnCurve));
    assert_eq!(x25519_shared_secret(&k, &one, &mut out), Err(Error::NotOnCurve));
    assert_eq!(out, vec![0xa5u8; 32]);
}

#[test]
fn shared_secret_reports_the_errors_of_the_function() {
    let k = hex("77076d0a7318a57d3c16c17251b26645df4c2f87ebc0992ab177fba51db92c2a");
    let u = hex(BASE);
    let p = hex("edffffffffffffffffffffffffffffffffffffffffffffffffffffffffffff7f");
    let mut out = vec![0xa5u8; 32];
    assert_eq!(x25519_shared_secret(&k[..31], &u, &mut out), Err(Error::WrongLength));
    assert_eq!(x25519_shared_secret(&k, &u[..31], &mut out), Err(Error::WrongLength));
    assert_eq!(x25519_shared_secret(&k, &p, &mut out), Err(Error::OutOfRange));
    assert_eq!(out, vec![0xa5u8; 32]);
    let mut short = vec![0xa5u8; 31];
    assert_eq!(x25519_shared_secret(&k, &u, &mut short), Err(Error::WrongLength));
    assert_eq!(short, vec![0xa5u8; 31]);
}

#[test]
fn cswap_swaps_or_leaves() {
    let mut a = [1u64, 2, 3, 4];
    let mut b = [5u64, 6, 7, 8];
    cswap(0, &mut a, &mut b);
    assert_eq!((a, b), ([1, 2, 3, 4], [5, 6, 7, 8]));
    cswap(1, &mut a, &mut b);
    assert_eq!((a, b), ([5, 6, 7, 8], [1, 2, 3, 4]));
}

#[test]
fn ladder_step_doubles_the_point_at_infinity_to_itself() {
    let f = p25519_field();
    let mut t = [0u64; 8];
    let one = f.one(&mut t);
    let mut nine = [0u64; 4];
    f.to_mont(&mut nine, &[9, 0, 0, 0], &mut t);
    let mut s = Ladder { x2: one, z2: [0; 4], x3: nine, z3: one };
    x25519_ladder_step(&mut s, 0, &nine, &mut t);
    assert_eq!(s.x2, one);
    assert_eq!(s.z2, [0u64; 4]);
}
