use graviola::error::Error;
use graviola::p256::{p256_base_point, p256_curve, p256_field, p256_scalar_mul};
use graviola::weierstrass::Point;

fn hex(s: &str) -> Vec<u8> {
    let digits: Vec<u8> = s.bytes().map(|c| (c as char).to_digit(16).unwrap() as u8).collect();
    digits.chunks(2).map(|d| d[0] * 16 + d[1]).collect()
}

const G: &str = "046b17d1f2e12c4247f8bce6e563a440f277037d812deb33a0f4a13945d898c2964fe342e2fe1a7f9b8ee7eb4a7c0f9e162bce33576b315ececbb6406837bf51f5";

fn times(k: &str, point: &str) -> Result<Vec<u8>, Error> {
    let mut out = vec![0u8; 65];
    p256_scalar_mul(&hex(k), &hex(point), &mut out)?;
    Ok(out)
}

fn scalar_of(k: u64) -> String {
    format!("{:064x}", k)
}

fn affine(pt: &Point<4>) -> ([u64; 4], [u64; 4]) {
    let mut t = [0u64; 8];
    p256_field().to_affine(pt, &mut t)
}

#[test]
fn p256_one_times_g_is_g() {
    assert_eq!(times(&scalar_of(1), G), Ok(hex(G)));
}

#[test]
fn p256_two_times_g() {
    assert_eq!(times(&scalar_of(2), G), Ok(hex("047cf27b188d034f7e8a52380304b51ac3c08969e277f21b35a60b48fc4766997807775510db8ed040293d9ac69f7430dbba7dade63ce982299e04b79d227873d1")));
}

#[test]
fn p256_order_less_one_times_g_is_minus_g() {
    assert_eq!(times("ffffffff00000000ffffffffffffffffbce6faada7179e84f3b9cac2fc632550", G), Ok(hex("046b17d1f2e12c4247f8bce6e563a440f277037d812deb33a0f4a13945d898c296b01cbd1c01e58065711814b583f061e9d431cca994cea1313449bf97c840ae0a")));
}

#[test]
fn p256_published_key_pair() {
    // a private key and its public key from the IKE test vectors for this group
    assert_eq!(times("c88f01f510d9ac3f70a292daa2316de544e9aab8afe84049c62a9c57862d1433", G), Ok(hex("04dad0b65394221cf9b051e1feca5787d098dfe637fc90b9ef945d0c37725811805271a0461cdb8252d61f1c456fa3e59ab1f45b33accf5f58389e0577b8990bb3")));
}

#[test]
fn p256_published_shared_secret() {
    // the responder's public key times the initiator's private key
    assert_eq!(times("c88f01f510d9ac3f70a292daa2316de544e9aab8afe84049c62a9c57862d1433", "04d12dfb5289c8d4f81208b70270398c342296970a0bccb74c736fc7554494bf6356fbf3ca366cc23e8157854c13c58d6aac23f046ada30f8353e74f33039872ab"), Ok(hex("04d6840f6b42f6edafd13116e0e12565202fef8e9ece7dce03812464d04b9442de522bde0af0d8585b8def9c183b5ae38f50235206a8674ecb5d98edb20eb153a2")));
}

#[test]
fn p256_random_scalar_times_random_point() {
    assert_eq!(times("0eb80f9cd484faec4fd72f51eb6bb6be0f7dec1c1365c1f5ac01301c9e8e2cf4", "0461b825845dd88381b40caad61ade27481a677d63452d291467de6ecda265c0919c1bd5aa852ef539c7c3ae144762c6d09d63ebdeaa16c9eb94de87d222a48cbb"), Ok(hex("0434c6c5a69be38d1e4e5687d2f1e882dd777b9874f6ecefbd6eda7fac747515064290eb0f1cdf4da58f7f2304404e4be84e0786b0daac37602ba2691d49dd9b74")));
}

#[test]
fn p256_sum_of_multiples_is_multiple_of_sum() {
    let f = p256_field();
    let g = p256_base_point();
    let k1: [u64; 4] = [0xe9b5fe103b163cd5, 0xdb2b7f65345ee74f, 0x8256a76eba73615c, 0xaf3ffda57e987e24];
    let k2: [u64; 4] = [0x9f97079961f8edcd, 0xe50eecb36b993006, 0x08eb3e8e17e38378, 0x79bd50be615849ce];
    let k12: [u64; 4] = [0x95933ae6a0ac0551, 0x0353716af8e078d1, 0x8b41e5fcd256e4d6, 0x28fd4e64dff0c7f1];
    let mut t = [0u64; 8];
    let a = f.scalar_mul(&k1, &g, &mut t);
    let b = f.scalar_mul(&k2, &g, &mut t);
    let c = f.scalar_mul(&k12, &g, &mut t);
    let sum = f.point_add(&a, &b, &mut t);
    assert_eq!(affine(&sum), affine(&c));
    assert_eq!(f.is_identity(&sum), 0);
}

#[test]
fn p256_zero_times_g_is_the_identity() {
    let f = p256_field();
    let g = p256_base_point();
    let mut t = [0u64; 8];
    let o = f.scalar_mul(&[0u64; 4], &g, &mut t);
    assert_eq!(f.is_identity(&o), 1);
    let mut one = [0u64; 4];
    one[0] = 1;
    let same = f.scalar_mul(&one, &g, &mut t);
    assert_eq!((same.x, same.y, same.z), (g.x, g.y, g.z));
}

#[test]
fn p256_order_times_g_is_the_identity() {
    let c = p256_curve();
    let g = p256_base_point();
    let mut t = [0u64; 8];
    let o = c.field.scalar_mul(&c.order, &g, &mut t);
    assert_eq!(c.field.is_identity(&o), 1);
}

#[test]
fn p256_identity_laws() {
    let f = p256_field();
    let g = p256_base_point();
    let mut t = [0u64; 8];
    let o = f.identity();
    let r = f.point_add(&g, &o, &mut t);
    assert_eq!((r.x, r.y, r.z), (g.x, g.y, g.z));
    let l = f.point_add(&o, &g, &mut t);
    assert_eq!((l.x, l.y, l.z), (g.x, g.y, g.z));
    let oo = f.point_add(&o, &o, &mut t);
    assert_eq!(f.is_identity(&oo), 1);
    let d = f.point_double(&o, &mut t);
    assert_eq!(f.is_identity(&d), 1);
    let m = f.point_negate(&g);
    let z = f.point_add(&g, &m, &mut t);
    assert_eq!(f.is_identity(&z), 1);
}

#[test]
fn p256_double_is_two_times() {
    let f = p256_field();
    let g = p256_base_point();
    let mut t = [0u64; 8];
    let d = f.point_double(&g, &mut t);
    let mut two = [0u64; 4];
    two[0] = 2;
    let m = f.scalar_mul(&two, &g, &mut t);
    assert_eq!(affine(&d), affine(&m));
    // the same point in two sets of coordinates: addition doubles
    let dd = f.point_double(&d, &mut t);
    let s = f.point_add(&d, &m, &mut t);
    assert_eq!(f.is_identity(&dd), 0);
    assert_eq!(affine(&s), affine(&dd));
    let gg = f.point_add(&g, &g, &mut t);
    assert_eq!(affine(&gg), affine(&d));
    assert_eq!(f.is_identity(&gg), 0);
}

#[test]
fn p256_mixed_addition_is_addition_with_z_one() {
    let f = p256_field();
    let g = p256_base_point();
    let mut t = [0u64; 8];
    let d = f.point_double(&g, &mut t);
    let m = f.point_add_mixed(&d, &g.x, &g.y, &mut t);
    let a = f.point_add(&d, &g, &mut t);
    assert_eq!((m.x, m.y, m.z), (a.x, a.y, a.z));
    // a point added to the same point in affine form is doubled
    let gg = f.point_add_mixed(&g, &g.x, &g.y, &mut t);
    assert_eq!(f.is_identity(&gg), 0);
    assert_eq!(affine(&gg), affine(&d));
    let o = f.identity();
    let og = f.point_add_mixed(&o, &g.x, &g.y, &mut t);
    assert_eq!((og.x, og.y, og.z), (g.x, g.y, g.z));
    let mut three = [0u64; 4];
    three[0] = 3;
    let k3 = f.scalar_mul(&three, &g, &mut t);
    assert_eq!(affine(&m), affine(&k3));
}

#[test]
fn p256_rejects_a_scalar_of_the_wrong_length() {
    assert_eq!(times(&"01".repeat(32 - 1), G), Err(Error::WrongLength));
    assert_eq!(times(&"01".repeat(32 + 1), G), Err(Error::WrongLength));
    assert_eq!(times("", G), Err(Error::WrongLength));
}

#[test]
fn p256_rejects_a_scalar_out_of_range() {
    assert_eq!(times(&scalar_of(0), G), Err(Error::OutOfRange));
    assert_eq!(times("ffffffff00000000ffffffffffffffffbce6faada7179e84f3b9cac2fc632551", G), Err(Error::OutOfRange));
    assert_eq!(times(&"ff".repeat(32), G), Err(Error::OutOfRange));
}

#[test]
fn p256_rejects_a_point_of_the_wrong_length() {
    assert_eq!(times(&scalar_of(1), &G[2..]), Err(Error::WrongLength));
    assert_eq!(times(&scalar_of(1), ""), Err(Error::WrongLength));
    assert_eq!(times(&scalar_of(1), &format!("{}00", G)), Err(Error::WrongLength));
}

#[test]
fn p256_rejects_a_compressed_point() {
    let compressed = format!("02{}", &G[2..]);
    assert_eq!(times(&scalar_of(1), &compressed), Err(Error::NotUncompressed));
    let infinity = format!("00{}", &G[2..]);
    assert_eq!(times(&scalar_of(1), &infinity), Err(Error::NotUncompressed));
}

#[test]
fn p256_rejects_a_coordinate_equal_to_the_prime() {
    let p = "ffffffff00000001000000000000000000000000ffffffffffffffffffffffff";
    let x_is_p = format!("04{}{}", p, &G[2 + 2 * 32..]);
    assert_eq!(times(&scalar_of(1), &x_is_p), Err(Error::OutOfRange));
    let y_is_p = format!("04{}{}", &G[2..2 + 2 * 32], p);
    assert_eq!(times(&scalar_of(1), &y_is_p), Err(Error::OutOfRange));
    let x_above = format!("04{}{}", "ff".repeat(32), &G[2 + 2 * 32..]);
    assert_eq!(times(&scalar_of(1), &x_above), Err(Error::OutOfRange));
}

#[test]
fn p256_rejects_a_point_off_the_curve() {
    let off = "046b17d1f2e12c4247f8bce6e563a440f277037d812deb33a0f4a13945d898c2964fe342e2fe1a7f9b8ee7eb4a7c0f9e162bce33576b315ececbb6406837bf51f6";
    assert_eq!(times(&scalar_of(1), off), Err(Error::NotOnCurve));
    let zero = format!("04{}", "00".repeat(2 * 32));
    assert_eq!(times(&scalar_of(1), &zero), Err(Error::NotOnCurve));
}

#[test]
fn p256_rejects_an_output_buffer_of_the_wrong_length() {
    let mut out = vec![0x5au8; 65 - 1];
    assert_eq!(p256_scalar_mul(&hex(&scalar_of(1)), &hex(G), &mut out), Err(Error::WrongLength));
    assert_eq!(out, vec![0x5au8; 65 - 1]);
}

#[test]
fn p256_decode_then_encode_round_trips() {
    let c = p256_curve();
    let mut t = [0u64; 8];
    let pt = c.decode_point(&hex(G), &mut t).unwrap();
    let mut out = vec![0u8; 65];
    assert_eq!(c.encode_point(&mut out, &pt, &mut t), Ok(()));
    assert_eq!(out, hex(G));
    let o = c.field.identity();
    assert_eq!(c.encode_point(&mut out, &o, &mut t), Err(Error::NotOnCurve));
    assert_eq!(out, hex(G));
}

#[test]
fn p256_inverse_times_itself_is_one() {
    let f = p256_field();
    let g = p256_base_point();
    let mut t = [0u64; 8];
    let inv = f.inverse(&g.x, &mut t);
    let mut prod = [0u64; 4];
    f.mul(&mut prod, &inv, &g.x, &mut t);
    assert_eq!(prod, f.one(&mut t));
    let zero = [0u64; 4];
    assert_eq!(f.inverse(&zero, &mut t), zero);
}
