use graviola::error::Error;
use graviola::p384::{p384_ecdsa_sign, p384_ecdsa_verify};

fn hex(s: &str) -> Vec<u8> {
    let digits: Vec<u8> = s.bytes().map(|c| (c as char).to_digit(16).unwrap() as u8).collect();
    digits.chunks(2).map(|d| d[0] * 16 + d[1]).collect()
}

// a key pair, the digest of the message "sample", a nonce, and the signature
// that the signing equations give for them, computed independently
const PRIVATE: &str = "5ce98d6f14517692b87a96dfd1d302907e8d3db28baa34760d86ec35273a5c6ca8d439cdc7395d538bc8ec268522095a";
const PUBLIC: &str = "043bbf66baa742c3460a1cf0ae851623db4c8a694deb5fd09d13d4a1e82af247e1db12716a9662bb0797bedac67a2d5f777939ed81c569684ca446e76d71186661b95411156bde0e61ff076684280afd4ee30bee11b897787e29250dd4d2a6fba5";
const DIGEST: &str = "9a9083505bc92276aec4be312696ef7bf3bf603f4bbd381196a029f340585312313bca4a9b5b890efee42c77b1ee25fe";
const NONCE: &str = "7b91dbda458a35463e7e8af7f27cbd3665458abcf577b23a654ec83284b197b861d88b1bec2337a496dc0ebeaaa40474";
const SIGNATURE: &str = "5eeeb5c7ede722e42b944d88d80158a563359ef39b466e5cd03716a7f8bcea62b19747a477a578b43432c7ed9711f173a11bb4446e05b2689f3ddc9697347fd025be147804ad9090e12d1f95603d2ab7d6a0d925d7a7ac7df08e6414eeda6b6c";

#[test]
fn p384_ecdsa_signs_the_worked_example() {
    let mut sig = vec![0u8; 96];
    assert_eq!(p384_ecdsa_sign(&hex(PRIVATE), &hex(DIGEST), &hex(NONCE), &mut sig), Ok(()));
    assert_eq!(sig, hex(SIGNATURE));
}

#[test]
fn p384_ecdsa_verifies_the_worked_example() {
    assert_eq!(p384_ecdsa_verify(&hex(PUBLIC), &hex(DIGEST), &hex(SIGNATURE)), Ok(()));
}

#[test]
fn p384_ecdsa_signs_and_verifies_a_random_case() {
    let private = hex("fbbb76818a85bd1367a806637f4b85161a62cd94bf6f67a36966d5afc323016b2c177c1783dbc601238a448c645994a8");
    let public = hex("04454dfd3183433fcf63051d0cadb96c8ada4169dcff07d49dfbc32ca7745b69c1764a73a650c3f7d6edd0b92b5b9bb0a57cfe4bb44f1a4c424582955b5ca6613df3903bc055e068534f8ee386f7359ce29ebb37f77aa7c8631302658c9ba4972e");
    let digest = hex("f5316a0fb24401785c185d23aa2228ee7fe32a1c471ecf1af3881b2fbc50610cc79f7addfceebac4a661f33b16278002");
    let nonce = hex("fba9d6fb76962aea755b549c402bfba2718c5d72578c247168719dadea74a1cda5e9db28babf51fab73dac4a78c22fe4");
    let mut sig = vec![0u8; 96];
    assert_eq!(p384_ecdsa_sign(&private, &digest, &nonce, &mut sig), Ok(()));
    assert_eq!(sig, hex("3d92b02661fd3483b40deab3805023175fe976330ec7b3da03d231cffbc5f9c7afa5b584fd650254096906e9b85940c4cd194a1f792c84dff37eb3ccc6fb65f289a6070f9b85eed4196868e204f3c9f19bef3bd53291a8d862b988ae1d5cff39"));
    assert_eq!(p384_ecdsa_verify(&public, &digest, &sig), Ok(()));
}

#[test]
fn p384_ecdsa_rejects_a_changed_message_signature_or_key() {
    let public = hex(PUBLIC);
    let digest = hex(DIGEST);
    let sig = hex(SIGNATURE);
    for at in [0, 48 - 1] {
        let mut d = digest.clone();
        d[at] ^= 1;
        assert_eq!(p384_ecdsa_verify(&public, &d, &sig), Err(Error::BadSignature));
    }
    for at in [0, 48 - 1, 48, 96 - 1] {
        let mut s = sig.clone();
        s[at] ^= 0x10;
        assert_eq!(p384_ecdsa_verify(&public, &digest, &s), Err(Error::BadSignature));
    }
    let other = hex("04454dfd3183433fcf63051d0cadb96c8ada4169dcff07d49dfbc32ca7745b69c1764a73a650c3f7d6edd0b92b5b9bb0a57cfe4bb44f1a4c424582955b5ca6613df3903bc055e068534f8ee386f7359ce29ebb37f77aa7c8631302658c9ba4972e");
    assert_eq!(p384_ecdsa_verify(&other, &digest, &sig), Err(Error::BadSignature));
}

#[test]
fn p384_ecdsa_rejects_halves_out_of_range() {
    let public = hex(PUBLIC);
    let digest = hex(DIGEST);
    let sig = hex(SIGNATURE);
    let zero = vec![0u8; 48];
    let order = hex("ffffffffffffffffffffffffffffffffffffffffffffffffc7634d81f4372ddf581a0db248b0a77aecec196accc52973");
    let mut r_zero = sig.clone();
    r_zero[..48].copy_from_slice(&zero);
    assert_eq!(p384_ecdsa_verify(&public, &digest, &r_zero), Err(Error::BadSignature));
    let mut s_zero = sig.clone();
    s_zero[48..].copy_from_slice(&zero);
    assert_eq!(p384_ecdsa_verify(&public, &digest, &s_zero), Err(Error::BadSignature));
    let mut r_order = sig.clone();
    r_order[..48].copy_from_slice(&order);
    assert_eq!(p384_ecdsa_verify(&public, &digest, &r_order), Err(Error::BadSignature));
    let mut s_order = sig.clone();
    s_order[48..].copy_from_slice(&order);
    assert_eq!(p384_ecdsa_verify(&public, &digest, &s_order), Err(Error::BadSignature));
}

#[test]
fn p384_ecdsa_verify_rejects_malformed_operands() {
    let public = hex(PUBLIC);
    let digest = hex(DIGEST);
    let sig = hex(SIGNATURE);
    assert_eq!(p384_ecdsa_verify(&public[1..], &digest, &sig), Err(Error::WrongLength));
    assert_eq!(p384_ecdsa_verify(&public, &digest[1..], &sig), Err(Error::WrongLength));
    assert_eq!(p384_ecdsa_verify(&public, &digest, &sig[1..]), Err(Error::WrongLength));
    assert_eq!(p384_ecdsa_verify(&public, &[], &sig), Err(Error::WrongLength));
    let mut compressed = public.clone();
    compressed[0] = 3;
    assert_eq!(p384_ecdsa_verify(&compressed, &digest, &sig), Err(Error::NotUncompressed));
    let mut off = public.clone();
    off[97 - 1] ^= 1;
    assert_eq!(p384_ecdsa_verify(&off, &digest, &sig), Err(Error::NotOnCurve));
    let mut big = public.clone();
    big[1..1 + 48].copy_from_slice(&hex("fffffffffffffffffffffffffffffffffffffffffffffffffffffffffffffffeffffffff0000000000000000ffffffff"));
    assert_eq!(p384_ecdsa_verify(&big, &digest, &sig), Err(Error::OutOfRange));
}

#[test]
fn p384_ecdsa_sign_rejects_malformed_operands() {
    let private = hex(PRIVATE);
    let digest = hex(DIGEST);
    let nonce = hex(NONCE);
    let order = hex("ffffffffffffffffffffffffffffffffffffffffffffffffc7634d81f4372ddf581a0db248b0a77aecec196accc52973");
    let zero = vec![0u8; 48];
    let mut sig = vec![0x3cu8; 96];
    assert_eq!(p384_ecdsa_sign(&private[1..], &digest, &nonce, &mut sig), Err(Error::WrongLength));
    assert_eq!(p384_ecdsa_sign(&private, &digest[1..], &nonce, &mut sig), Err(Error::WrongLength));
    assert_eq!(p384_ecdsa_sign(&private, &digest, &nonce[1..], &mut sig), Err(Error::WrongLength));
    assert_eq!(p384_ecdsa_sign(&zero, &digest, &nonce, &mut sig), Err(Error::OutOfRange));
    assert_eq!(p384_ecdsa_sign(&order, &digest, &nonce, &mut sig), Err(Error::OutOfRange));
    assert_eq!(p384_ecdsa_sign(&private, &digest, &zero, &mut sig), Err(Error::OutOfRange));
    assert_eq!(p384_ecdsa_sign(&private, &digest, &order, &mut sig), Err(Error::OutOfRange));
    assert_eq!(sig, vec![0x3cu8; 96]);
    let mut short = vec![0x3cu8; 96 - 1];
    assert_eq!(p384_ecdsa_sign(&private, &digest, &nonce, &mut short), Err(Error::WrongLength));
    assert_eq!(short, vec![0x3cu8; 96 - 1]);
}
