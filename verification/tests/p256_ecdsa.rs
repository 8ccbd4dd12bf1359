use graviola::error::Error;
use graviola::p256::{p256_ecdsa_sign, p256_ecdsa_verify};

fn hex(s: &str) -> Vec<u8> {
    let digits: Vec<u8> = s.bytes().map(|c| (c as char).to_digit(16).unwrap() as u8).collect();
    digits.chunks(2).map(|d| d[0] * 16 + d[1]).collect()
}

// the key pair, the digest of the message "sample", the nonce and the
// signature of the published example of deterministic signatures for this
// curve
const PRIVATE: &str = "c9afa9d845ba75166b5c215767b1d6934e50c3db36e89b127b8a622b120f6721";
const PUBLIC: &str = "0460fed4ba255a9d31c961eb74c6356d68c049b8923b61fa6ce669622e60f29fb67903fe1008b8bc99a41ae9e95628bc64f2f1b20c2d7e9f5177a3c294d4462299";
const DIGEST: &str = "af2bdbe1aa9b6ec1e2ade1d694f41fc71a831d0268e9891562113d8a62add1bf";
const NONCE: &str = "a6e3c57dd01abe90086538398355dd4c3b17aa873382b0f24d6129493d8aad60";
const SIGNATURE: &str = "efd48b2aacb6a8fd1140dd9cd45e81d69d2c877b56aaf991c34d0ea84eaf3716f7cb1c942d657c41d436c7a1b6e29f65f3e900dbb9aff4064dc4ab2f843acda8";

#[test]
fn p256_ecdsa_signs_the_published_example() {
    let mut sig = vec![0u8; 64];
    assert_eq!(p256_ecdsa_sign(&hex(PRIVATE), &hex(DIGEST), &hex(NONCE), &mut sig), Ok(()));
    assert_eq!(sig, hex(SIGNATURE));
}

#[test]
fn p256_ecdsa_verifies_the_published_example() {
    assert_eq!(p256_ecdsa_verify(&hex(PUBLIC), &hex(DIGEST), &hex(SIGNATURE)), Ok(()));
}

#[test]
fn p256_ecdsa_signs_and_verifies_a_random_case() {
    let private = hex("9ebe2de52517508454c2686dfd49a3031b1436b6677975545dd5073b6a51c7c0");
    let public = hex("04853980dcb9b7928a730e8abe58662a77ec03309a6f5da991f78d58d87142e182c01576314a122f57e52d4886266fbd39a9f18d22707e112322314731de6f3de7");
    let digest = hex("91cad90a9d9ded33bd556b678c6c28b64123b775a3aa914e8fdd47dae9d982dd");
    let nonce = hex("62ca16a6692e64880183913a1edbae62b210b26fa3b9d506e102498e304fc5f0");
    let mut sig = vec![0u8; 64];
    assert_eq!(p256_ecdsa_sign(&private, &digest, &nonce, &mut sig), Ok(()));
    assert_eq!(sig, hex("2a6a1d44c1d5b5640baa662674fdff0bae37fa2f47d84541c88700ba07eef1d36de38e56937678e6a5437cd165d2f980d6ff126317af5bd91e64f4b69a7203fd"));
    assert_eq!(p256_ecdsa_verify(&public, &digest, &sig), Ok(()));
}

#[test]
fn p256_ecdsa_rejects_a_changed_message_signature_or_key() {
    let public = hex(PUBLIC);
    let digest = hex(DIGEST);
    let sig = hex(SIGNATURE);
    for at in [0, 32 - 1] {
        let mut d = digest.clone();
        d[at] ^= 1;
        assert_eq!(p256_ecdsa_verify(&public, &d, &sig), Err(Error::BadSignature));
    }
    for at in [0, 32 - 1, 32, 64 - 1] {
        let mut s = sig.clone();
        s[at] ^= 0x10;
        assert_eq!(p256_ecdsa_verify(&public, &digest, &s), Err(Error::BadSignature));
    }
    let other = hex("04853980dcb9b7928a730e8abe58662a77ec03309a6f5da991f78d58d87142e182c01576314a122f57e52d4886266fbd39a9f18d22707e112322314731de6f3de7");
    assert_eq!(p256_ecdsa_verify(&other, &digest, &sig), Err(Error::BadSignature));
}

#[test]
fn p256_ecdsa_rejects_halves_out_of_range() {
    let public = hex(PUBLIC);
    let digest = hex(DIGEST);
    let sig = hex(SIGNATURE);
    let zero = vec![0u8; 32];
    let order = hex("ffffffff00000000ffffffffffffffffbce6faada7179e84f3b9cac2fc632551");
    let mut r_zero = sig.clone();
    r_zero[..32].copy_from_slice(&zero);
    assert_eq!(p256_ecdsa_verify(&public, &digest, &r_zero), Err(Error::BadSignature));
    let mut s_zero = sig.clone();
    s_zero[32..].copy_from_slice(&zero);
    assert_eq!(p256_ecdsa_verify(&public, &digest, &s_zero), Err(Error::BadSignature));
    let mut r_order = sig.clone();
    r_order[..32].copy_from_slice(&order);
    assert_eq!(p256_ecdsa_verify(&public, &digest, &r_order), Err(Error::BadSignature));
    let mut s_order = sig.clone();
    s_order[32..].copy_from_slice(&order);
    assert_eq!(p256_ecdsa_verify(&public, &digest, &s_order), Err(Error::BadSignature));
}

#[test]
fn p256_ecdsa_verify_rejects_malformed_operands() {
    let public = hex(PUBLIC);
    let digest = hex(DIGEST);
    let sig = hex(SIGNATURE);
    assert_eq!(p256_ecdsa_verify(&public[1..], &digest, &sig), Err(Error::WrongLength));
    assert_eq!(p256_ecdsa_verify(&public, &digest[1..], &sig), Err(Error::WrongLength));
    assert_eq!(p256_ecdsa_verify(&public, &digest, &sig[1..]), Err(Error::WrongLength));
    assert_eq!(p256_ecdsa_verify(&public, &[], &sig), Err(Error::WrongLength));
    let mut compressed = public.clone();
    compressed[0] = 3;
    assert_eq!(p256_ecdsa_verify(&compressed, &digest, &sig), Err(Error::NotUncompressed));
    let mut off = public.clone();
    off[65 - 1] ^= 1;
    assert_eq!(p256_ecdsa_verify(&off, &digest, &sig), Err(Error::NotOnCurve));
    let mut big = public.clone();
    big[1..1 + 32].copy_from_slice(&hex("ffffffff00000001000000000000000000000000ffffffffffffffffffffffff"));
    assert_eq!(p256_ecdsa_verify(&big, &digest, &sig), Err(Error::OutOfRange));
}

#[test]
fn p256_ecdsa_sign_rejects_malformed_operands() {
    let private = hex(PRIVATE);
    let digest = hex(DIGEST);
    let nonce = hex(NONCE);
    let order = hex("ffffffff00000000ffffffffffffffffbce6faada7179e84f3b9cac2fc632551");
    let zero = vec![0u8; 32];
    let mut sig = vec![0x3cu8; 64];
    assert_eq!(p256_ecdsa_sign(&private[1..], &digest, &nonce, &mut sig), Err(Error::WrongLength));
    assert_eq!(p256_ecdsa_sign(&private, &digest[1..], &nonce, &mut sig), Err(Error::WrongLength));
    assert_eq!(p256_ecdsa_sign(&private, &digest, &nonce[1..], &mut sig), Err(Error::WrongLength));
    assert_eq!(p256_ecdsa_sign(&zero, &digest, &nonce, &mut sig), Err(Error::OutOfRange));
    assert_eq!(p256_ecdsa_sign(&order, &digest, &nonce, &mut sig), Err(Error::OutOfRange));
    assert_eq!(p256_ecdsa_sign(&private, &digest, &zero, &mut sig), Err(Error::OutOfRange));
    assert_eq!(p256_ecdsa_sign(&private, &digest, &order, &mut sig), Err(Error::OutOfRange));
    assert_eq!(sig, vec![0x3cu8; 64]);
    let mut short = vec![0x3cu8; 64 - 1];
    assert_eq!(p256_ecdsa_sign(&private, &digest, &nonce, &mut short), Err(Error::WrongLength));
    assert_eq!(short, vec![0x3cu8; 64 - 1]);
}
