//! The field of the curve P-256: arithmetic modulo
//! `p = 2^256 - 2^224 + 2^192 + 2^96 - 1` on four limbs, in the Montgomery
//! domain with `R = 2^256`.

use vstd::prelude::*;
use crate::error::Error;
use crate::field::Field;
use crate::jacobian::JacobianPoint;
use crate::ecdsa::{ecdsa_sign_bytes_spec, ecdsa_verify_bytes_spec};
use crate::encoding::be_value;
use crate::weierstrass::{scalar_mul_bytes_spec, encodes_point, Curve, Point};
use crate::limbs::{lemma_radix_values, lemma_value_4, limbs_value, radix};
use crate::montgomery::{
    bignum_modadd, bignum_modsub, bignum_montmul, bignum_montsqr, from_mont, is_mont_word,
    lemma_mont_to_domain, lemma_mont_unique, mont_product, to_mont,
};

verus! {

/// The prime `p` of P-256.
pub open spec fn p256_prime() -> nat {
    0xffffffff00000001000000000000000000000000ffffffffffffffffffffffffnat
}

/// The inverse of `R = 2^256` modulo `p`.
pub open spec fn p256_r_inv() -> nat {
    0xfffffffe00000003fffffffd0000000200000001fffffffe0000000300000000nat
}

/// The limbs of `p`.
pub const P_256: [u64; 4] = [0xffffffffffffffff, 0x00000000ffffffff, 0x0000000000000000, 0xffffffff00000001];

/// The limbs of `R^2 mod p`.
pub const P_256_R2: [u64; 4] = [0x0000000000000003, 0xfffffffbffffffff, 0xfffffffffffffffe, 0x00000004fffffffd];

/// The word `w` with `p * w == -1 (mod 2^64)`.
pub const P_256_W: u64 = 1;

/// The constant for `R^2 mod p` is what its name says, by an explicit quotient.
proof fn lemma_p256_r2()
    ensures
        limbs_value(P_256_R2@) == (radix(4) * radix(4)) % p256_prime(),
{
    lemma_value_4(P_256_R2@);
    lemma_radix_values();
    let v = limbs_value(P_256_R2@) as int;
    assert(v == 0x4fffffffdfffffffffffffffefffffffbffffffff0000000000000003int);
    let r = radix(4) as int;
    let p = p256_prime() as int;
    assert(r * r == 0x100000000fffffffffffffffefffffffefffffffeffffffff0000000000000003int * p + v);
    vstd::arithmetic::div_mod::lemma_fundamental_div_mod_converse_mod(r * r, p, 0x100000000fffffffffffffffefffffffefffffffeffffffff0000000000000003int, v);
}

/// The constant for the inverse of `R` modulo `p` is what its name says, by an explicit quotient.
proof fn lemma_p256_r_inv()
    ensures
        (radix(4) * p256_r_inv()) % p256_prime() == 1,
{
    lemma_radix_values();
    let r = radix(4) as int;
    let i = p256_r_inv() as int;
    let p = p256_prime() as int;
    assert(r * i == 0xffffffff00000002000000000000000000000001000000000000000000000001int * p + 1);
    vstd::arithmetic::div_mod::lemma_fundamental_div_mod_converse_mod(r * i, p, 0xffffffff00000002000000000000000000000001000000000000000000000001int, 1);
}

/// The constants are what their names say.
pub proof fn lemma_p256_constants()
    ensures
        limbs_value(P_256@) == p256_prime(),
        limbs_value(P_256_R2@) == (radix(4) * radix(4)) % p256_prime(),
        (radix(4) * p256_r_inv()) % p256_prime() == 1,
        is_mont_word(P_256@[0], P_256_W),
        p256_prime() < radix(4),
{
    lemma_value_4(P_256@);
    lemma_radix_values();
    lemma_p256_r2();
    lemma_p256_r_inv();
    assert(P_256@[0] * P_256_W + 1 == 0x1_0000_0000_0000_0000) by {
        assert(P_256@[0] == 0xffffffffffffffff);
        assert(P_256_W == 0x1);
    }
}

/// Montgomery product: `z := x * y / 2^256 (mod p)`, for `x * y <= 2^256 p`,
/// which holds whenever one of the factors is below `p`.  The result is
/// fully reduced.
pub fn bignum_montmul_p256(z: &mut [u64; 4], x: &[u64; 4], y: &[u64; 4])
    requires
        limbs_value(x@) * limbs_value(y@) <= radix(4) * p256_prime(),
    ensures
        limbs_value(final(z)@) < p256_prime(),
        limbs_value(final(z)@) == mont_product(
            limbs_value(x@),
            limbs_value(y@),
            p256_r_inv(),
            p256_prime(),
        ),
{
    let mut t = [0u64;8];
    proof {
        lemma_p256_constants();
    }
    bignum_montmul(z, x, y, &P_256, P_256_W, &mut t);
    proof {
        lemma_mont_unique(
            limbs_value(z@),
            limbs_value(x@) * limbs_value(y@),
            radix(4),
            p256_r_inv(),
            p256_prime(),
        );
    }
}

/// Montgomery square: `z := x^2 / 2^256 (mod p)`, for `x^2 <= 2^256 p`,
/// which holds in particular for `x < p`.  The result is fully reduced, and
/// it is the Montgomery product of `x` with itself.
pub fn bignum_montsqr_p256(z: &mut [u64; 4], x: &[u64; 4])
    requires
        limbs_value(x@) * limbs_value(x@) <= radix(4) * p256_prime(),
    ensures
        limbs_value(final(z)@) < p256_prime(),
        limbs_value(final(z)@) == mont_product(
            limbs_value(x@),
            limbs_value(x@),
            p256_r_inv(),
            p256_prime(),
        ),
{
    let mut t = [0u64;8];
    proof {
        lemma_p256_constants();
    }
    bignum_montsqr(z, x, &P_256, P_256_W, &mut t);
    proof {
        lemma_mont_unique(
            limbs_value(z@),
            limbs_value(x@) * limbs_value(x@),
            radix(4),
            p256_r_inv(),
            p256_prime(),
        );
    }
}

/// Into the Montgomery domain: `z := x * 2^256 (mod p)`, for any `x`.
pub fn bignum_tomont_p256(z: &mut [u64; 4], x: &[u64; 4])
    ensures
        limbs_value(final(z)@) < p256_prime(),
        limbs_value(final(z)@) == to_mont(limbs_value(x@), radix(4), p256_prime()),
{
    proof {
        lemma_p256_constants();
        crate::limbs::lemma_value_bound(x@);
        crate::montgomery::lemma_mont_factor_bound(
            limbs_value(x@),
            limbs_value(P_256_R2@),
            radix(4),
            p256_prime(),
        );
        lemma_mont_to_domain(
            limbs_value(x@),
            limbs_value(P_256_R2@),
            radix(4),
            p256_r_inv(),
            p256_prime(),
        );
    }
    bignum_montmul_p256(z, x, &P_256_R2);
}

/// Out of the Montgomery domain: `z := x / 2^256 (mod p)`, for any `x`.
pub fn bignum_demont_p256(z: &mut [u64; 4], x: &[u64; 4])
    ensures
        limbs_value(final(z)@) < p256_prime(),
        limbs_value(final(z)@) == from_mont(limbs_value(x@), p256_r_inv(), p256_prime()),
{
    let one: [u64; 4] = [1, 0, 0, 0];
    proof {
        lemma_p256_constants();
        lemma_value_4(one@);
        crate::limbs::lemma_value_bound(x@);
        crate::montgomery::lemma_mont_factor_bound(
            limbs_value(x@),
            limbs_value(one@),
            radix(4),
            p256_prime(),
        );
        assert(limbs_value(x@) * 1 == limbs_value(x@));
    }
    bignum_montmul_p256(z, x, &one);
}

/// Field sum: `z := (x + y) mod p` for `x, y < p`.
pub fn bignum_add_p256(z: &mut [u64; 4], x: &[u64; 4], y: &[u64; 4])
    requires
        limbs_value(x@) < p256_prime(),
        limbs_value(y@) < p256_prime(),
    ensures
        limbs_value(final(z)@) < p256_prime(),
        limbs_value(final(z)@) == (limbs_value(x@) + limbs_value(y@)) % p256_prime(),
{
    proof {
        lemma_p256_constants();
    }
    bignum_modadd(z, x, y, &P_256);
}

/// Field difference: `z := (x - y) mod p` for `x, y < p`.
pub fn bignum_sub_p256(z: &mut [u64; 4], x: &[u64; 4], y: &[u64; 4])
    requires
        limbs_value(x@) < p256_prime(),
        limbs_value(y@) < p256_prime(),
    ensures
        limbs_value(final(z)@) < p256_prime(),
        limbs_value(final(z)@) == (limbs_value(x@) - limbs_value(y@)) % (p256_prime() as int),
{
    proof {
        lemma_p256_constants();
    }
    bignum_modsub(z, x, y, &P_256);
}

/// The coefficient `b` of the curve.
pub open spec fn p256_b() -> nat {
    0x5ac635d8aa3a93e7b3ebbd55769886bc651d06b0cc53b0f63bce3c3e27d2604bnat
}

/// The order `n` of the group of points.
pub open spec fn p256_order() -> nat {
    0xffffffff00000000ffffffffffffffffbce6faada7179e84f3b9cac2fc632551nat
}

/// The affine `x` of the base point.
pub open spec fn p256_gx() -> nat {
    0x6b17d1f2e12c4247f8bce6e563a440f277037d812deb33a0f4a13945d898c296nat
}

/// The affine `y` of the base point.
pub open spec fn p256_gy() -> nat {
    0x4fe342e2fe1a7f9b8ee7eb4a7c0f9e162bce33576b315ececbb6406837bf51f5nat
}

/// The limbs of `b` in the Montgomery domain.
pub const P_256_B: [u64; 4] = [
    0xd89cdf6229c4bddf,
    0xacf005cd78843090,
    0xe5a220abf7212ed6,
    0xdc30061d04874834,
];

/// The limbs of the group order.
pub const P_256_ORDER: [u64; 4] = [
    0xf3b9cac2fc632551,
    0xbce6faada7179e84,
    0xffffffffffffffff,
    0xffffffff00000000,
];

/// The limbs of the base point's `x` in the Montgomery domain.
pub const P_256_GX: [u64; 4] = [
    0x79e730d418a9143c,
    0x75ba95fc5fedb601,
    0x79fb732b77622510,
    0x18905f76a53755c6,
];

/// The limbs of the base point's `y` in the Montgomery domain.
pub const P_256_GY: [u64; 4] = [
    0xddf25357ce95560a,
    0x8b4ab8e4ba19e45c,
    0xd2e88688dd21f325,
    0x8571ff1825885d85,
];

/// The limbs of 1 in the Montgomery domain, that is of `R mod p`.
pub const P_256_ONE: [u64; 4] = [
    0x0000000000000001,
    0xffffffff00000000,
    0xffffffffffffffff,
    0x00000000fffffffe,
];

/// The constant for the coefficient `b` is what its name says, by an explicit quotient.
proof fn lemma_p256_b()
    ensures
        limbs_value(P_256_B@) == (p256_b() * radix(4)) % p256_prime(),
{
    lemma_value_4(P_256_B@);
    lemma_radix_values();
    let v = limbs_value(P_256_B@) as int;
    assert(v == 0xdc30061d04874834e5a220abf7212ed6acf005cd78843090d89cdf6229c4bddfint);
    let r = radix(4) as int;
    let c = p256_b() as int;
    let p = p256_prime() as int;
    assert(c * r == 0x5ac635d90500c9c05e26513ccfbe0e38d6b4c3ac78843090d89cdf6229c4bddfint * p + v);
    vstd::arithmetic::div_mod::lemma_fundamental_div_mod_converse_mod(c * r, p, 0x5ac635d90500c9c05e26513ccfbe0e38d6b4c3ac78843090d89cdf6229c4bddfint, v);
}

/// The constant for the base point's `x` is what its name says, by an explicit quotient.
proof fn lemma_p256_gx()
    ensures
        limbs_value(P_256_GX@) == (p256_gx() * radix(4)) % p256_prime(),
{
    lemma_value_4(P_256_GX@);
    lemma_radix_values();
    let v = limbs_value(P_256_GX@) as int;
    assert(v == 0x18905f76a53755c679fb732b7762251075ba95fc5fedb60179e730d418a9143cint);
    let r = radix(4) as int;
    let c = p256_gx() as int;
    let p = p256_prime() as int;
    assert(c * r == 0x6b17d1f34c44143ad9e9292cf14955e48e63aa385fedb60179e730d418a9143cint * p + v);
    vstd::arithmetic::div_mod::lemma_fundamental_div_mod_converse_mod(c * r, p, 0x6b17d1f34c44143ad9e9292cf14955e48e63aa385fedb60179e730d418a9143cint, v);
}

/// The constant for the base point's `y` is what its name says, by an explicit quotient.
proof fn lemma_p256_gy()
    ensures
        limbs_value(P_256_GY@) == (p256_gy() * radix(4)) % p256_prime(),
{
    lemma_value_4(P_256_GY@);
    lemma_radix_values();
    let v = limbs_value(P_256_GY@) as int;
    assert(v == 0x8571ff1825885d85d2e88688dd21f3258b4ab8e4ba19e45cddf25357ce95560aint);
    let r = radix(4) as int;
    let c = p256_gy() as int;
    let p = p256_prime() as int;
    assert(c * r == 0x4fe342e34dfdc27e8d026ae5bb14467d59e00eeeba19e45cddf25357ce95560aint * p + v);
    vstd::arithmetic::div_mod::lemma_fundamental_div_mod_converse_mod(c * r, p, 0x4fe342e34dfdc27e8d026ae5bb14467d59e00eeeba19e45cddf25357ce95560aint, v);
}

/// The constant for 1 is what its name says, by an explicit quotient.
proof fn lemma_p256_one()
    ensures
        limbs_value(P_256_ONE@) == (1 * radix(4)) % p256_prime(),
{
    lemma_value_4(P_256_ONE@);
    lemma_radix_values();
    let v = limbs_value(P_256_ONE@) as int;
    assert(v == 0xfffffffeffffffffffffffffffffffff000000000000000000000001int);
    let r = radix(4) as int;
    let c = 1 as int;
    let p = p256_prime() as int;
    assert(c * r == 0x1int * p + v);
    vstd::arithmetic::div_mod::lemma_fundamental_div_mod_converse_mod(c * r, p, 0x1int, v);
}

/// The curve constants are what their names say.
pub proof fn lemma_p256_curve_constants()
    ensures
        limbs_value(P_256_B@) == (p256_b() * radix(4)) % p256_prime(),
        limbs_value(P_256_GX@) == (p256_gx() * radix(4)) % p256_prime(),
        limbs_value(P_256_GY@) == (p256_gy() * radix(4)) % p256_prime(),
        limbs_value(P_256_ONE@) == (1 * radix(4)) % p256_prime(),
        limbs_value(P_256_ORDER@) == p256_order(),
        p256_b() < p256_prime(),
        p256_gx() < p256_prime(),
        p256_gy() < p256_prime(),
{
    lemma_p256_b();
    lemma_p256_gx();
    lemma_p256_gy();
    lemma_p256_one();
    lemma_value_4(P_256_ORDER@);
}

/// The parameters of the field of P-256.
pub open spec fn p256_field_spec() -> Field<4> {
    Field {
        m: P_256,
        r2: P_256_R2,
        w: P_256_W,
        p: Ghost(p256_prime()),
        r_inv: Ghost(p256_r_inv()),
    }
}

/// The field of P-256.
#[verifier::when_used_as_spec(p256_field_spec)]
pub fn p256_field() -> (f: Field<4>)
    ensures
        f == p256_field_spec(),
        f.wf(),
        f.p@ == p256_prime(),
        f.r_inv@ == p256_r_inv(),
{
    proof {
        lemma_p256_constants();
    }
    Field {
        m: P_256,
        r2: P_256_R2,
        w: P_256_W,
        p: Ghost(p256_prime()),
        r_inv: Ghost(p256_r_inv()),
    }
}

/// The inverse of `R` modulo the group order.
pub open spec fn p256_order_r_inv() -> nat {
    0x60d066334905c1e907f8b6041e607725badef3e243566fafce1bc8f79c197c79nat
}

/// The limbs of `R^2` modulo the group order.
pub const P_256_N_R2: [u64; 4] = [
    0x83244c95be79eea2,
    0x4699799c49bd6fa6,
    0x2845b2392b6bec59,
    0x66e12d94f3d95620,
];

/// The word `w` with `n * w == -1 (mod 2^64)` for the group order `n`.
pub const P_256_N_W: u64 = 0xccd1c8aaee00bc4f;

/// The constant for `R^2` modulo the group order is what its name says, by an explicit quotient.
proof fn lemma_p256_order_r2()
    ensures
        limbs_value(P_256_N_R2@) == (radix(4) * radix(4)) % p256_order(),
{
    lemma_value_4(P_256_N_R2@);
    lemma_radix_values();
    let v = limbs_value(P_256_N_R2@) as int;
    assert(v == 0x66e12d94f3d956202845b2392b6bec594699799c49bd6fa683244c95be79eea2int);
    let r = radix(4) as int;
    let q = p256_order() as int;
    assert(r * r == 0x100000000fffffffffffffffeffffffff43190552df1a6c21012ffd85eedf9bfeint * q + v);
    vstd::arithmetic::div_mod::lemma_fundamental_div_mod_converse_mod(r * r, q, 0x100000000fffffffffffffffeffffffff43190552df1a6c21012ffd85eedf9bfeint, v);
}

/// The constant for the inverse of `R` modulo the group order is what its name says, by an explicit quotient.
proof fn lemma_p256_order_r_inv()
    ensures
        (radix(4) * p256_order_r_inv()) % p256_order() == 1,
{
    lemma_radix_values();
    let r = radix(4) as int;
    let i = p256_order_r_inv() as int;
    let q = p256_order() as int;
    assert(r * i == 0x60d06633a9d6281c50fe77ecc588c6f648c944087d74d2e4ccd1c8aaee00bc4fint * q + 1);
    vstd::arithmetic::div_mod::lemma_fundamental_div_mod_converse_mod(r * i, q, 0x60d06633a9d6281c50fe77ecc588c6f648c944087d74d2e4ccd1c8aaee00bc4fint, 1);
}

/// The constants of the field of scalars are what their names say.
pub proof fn lemma_p256_order_constants()
    ensures
        limbs_value(P_256_ORDER@) == p256_order(),
        limbs_value(P_256_N_R2@) == (radix(4) * radix(4)) % p256_order(),
        (radix(4) * p256_order_r_inv()) % p256_order() == 1,
        is_mont_word(P_256_ORDER@[0], P_256_N_W),
{
    lemma_value_4(P_256_ORDER@);
    lemma_p256_order_r2();
    lemma_p256_order_r_inv();
    assert(P_256_ORDER@[0] * P_256_N_W + 1 == 0xc2ffc74dccaf7720 * 0x1_0000_0000_0000_0000) by {
        assert(P_256_ORDER@[0] == 0xf3b9cac2fc632551);
        assert(P_256_N_W == 0xccd1c8aaee00bc4f);
    }
    vstd::arithmetic::div_mod::lemma_fundamental_div_mod_converse_mod(
        P_256_ORDER@[0] * P_256_N_W + 1,
        0x1_0000_0000_0000_0000,
        0xc2ffc74dccaf7720,
        0,
    );
}

/// The parameters of the field of scalars of P-256, that is of the
/// integers modulo the group order.
pub open spec fn p256_scalar_field_spec() -> Field<4> {
    Field {
        m: P_256_ORDER,
        r2: P_256_N_R2,
        w: P_256_N_W,
        p: Ghost(p256_order()),
        r_inv: Ghost(p256_order_r_inv()),
    }
}

/// The field of scalars of P-256.
#[verifier::when_used_as_spec(p256_scalar_field_spec)]
pub fn p256_scalar_field() -> (f: Field<4>)
    ensures
        f == p256_scalar_field_spec(),
        f.wf(),
        f.p@ == p256_order(),
{
    proof {
        lemma_p256_order_constants();
    }
    Field {
        m: P_256_ORDER,
        r2: P_256_N_R2,
        w: P_256_N_W,
        p: Ghost(p256_order()),
        r_inv: Ghost(p256_order_r_inv()),
    }
}

/// The curve P-256.
pub fn p256_curve() -> (c: Curve<4>)
    ensures
        c.wf(),
        c.field == p256_field_spec(),
        c.field.p@ == p256_prime(),
        c.field.r_inv@ == p256_r_inv(),
        c.field.value(c.b@) == p256_b(),
        limbs_value(c.order@) == p256_order(),
        c.scalar_field == p256_scalar_field_spec(),
        c.generator() == (JacobianPoint { x: p256_gx(), y: p256_gy(), z: 1 }),
{
    let f = p256_field();
    let sf = p256_scalar_field();
    proof {
        lemma_p256_constants();
        lemma_p256_curve_constants();
        lemma_p256_order_constants();
        crate::montgomery::lemma_mont_round_trip(
            p256_b(),
            radix(4),
            p256_r_inv(),
            p256_prime(),
        );
        crate::montgomery::lemma_mont_round_trip(
            p256_gx(),
            radix(4),
            p256_r_inv(),
            p256_prime(),
        );
        crate::montgomery::lemma_mont_round_trip(
            p256_gy(),
            radix(4),
            p256_r_inv(),
            p256_prime(),
        );
    }
    Curve {
        field: f,
        b: P_256_B,
        order: P_256_ORDER,
        scalar_field: sf,
        gx: P_256_GX,
        gy: P_256_GY,
    }
}

/// The base point `G` of P-256.
pub fn p256_base_point() -> (g: Point<4>)
    ensures
        g.reduced(&p256_field()),
        g.model(&p256_field()) == (JacobianPoint { x: p256_gx(), y: p256_gy(), z: 1 }),
{
    proof {
        lemma_p256_constants();
        lemma_p256_curve_constants();
        crate::montgomery::lemma_mont_round_trip(
            p256_gx(),
            radix(4),
            p256_r_inv(),
            p256_prime(),
        );
        crate::montgomery::lemma_mont_round_trip(
            p256_gy(),
            radix(4),
            p256_r_inv(),
            p256_prime(),
        );
        crate::montgomery::lemma_mont_round_trip(1, radix(4), p256_r_inv(), p256_prime());
    }
    Point { x: P_256_GX, y: P_256_GY, z: P_256_ONE }
}

/// Scalar multiplication on P-256 with encoded operands: the scalar as
/// 32 big-endian bytes with `0 < k < n`, the point and the product in the
/// uncompressed form of 65 bytes.  On any error `out` is left as it was.
pub fn p256_scalar_mul(scalar: &[u8], point: &[u8], out: &mut [u8]) -> (r: Result<(), Error>)
    ensures
        final(out)@.len() == old(out)@.len(),
        match scalar_mul_bytes_spec(
            scalar@,
            point@,
            old(out)@.len(),
            4,
            p256_order(),
            p256_b(),
            p256_prime(),
        ) {
            Ok(prod) => r is Ok && encodes_point(final(out)@, prod, 4, p256_prime()),
            Err(e) => r == Err::<(), Error>(e) && final(out)@ == old(out)@,
        },
{
    let c = p256_curve();
    let mut t = [0u64;8];
    c.scalar_mul_bytes(scalar, point, out, &mut t)
}

/// ECDSA verification on P-256: the public key in the uncompressed form
/// of 65 bytes, the digest on 32 bytes, and the signature as `r` then
/// `s` on 64 bytes.  A signature that does not fit is `BadSignature`.
pub fn p256_ecdsa_verify(public: &[u8], digest: &[u8], signature: &[u8]) -> (res: Result<
    (),
    Error,
>)
    ensures
        res == ecdsa_verify_bytes_spec(
            public@,
            digest@,
            signature@,
            4,
            p256_order(),
            p256_b(),
            JacobianPoint { x: p256_gx(), y: p256_gy(), z: 1 },
            p256_prime(),
        ),
{
    let c = p256_curve();
    let mut t = [0u64;8];
    c.ecdsa_verify_bytes(public, digest, signature, &mut t)
}

/// ECDSA signing on P-256 with a nonce that the caller supplies: the
/// private key, the digest and the nonce on 32 bytes each, and the
/// signature written to the 64 bytes of `out` as `r` then `s`.  The nonce
/// must be fresh, secret and uniformly random in `0 < k < n` for every
/// signature.  On any error `out` is left as it was.
pub fn p256_ecdsa_sign(private: &[u8], digest: &[u8], nonce: &[u8], out: &mut [u8]) -> (res:
    Result<(), Error>)
    ensures
        final(out)@.len() == old(out)@.len(),
        match ecdsa_sign_bytes_spec(
            private@,
            digest@,
            nonce@,
            old(out)@.len(),
            4,
            p256_order(),
            JacobianPoint { x: p256_gx(), y: p256_gy(), z: 1 },
            p256_prime(),
        ) {
            Ok((r, s)) => res is Ok && be_value(final(out)@.subrange(0, 32)) == r && be_value(
                final(out)@.subrange(32, 64),
            ) == s,
            Err(e) => res == Err::<(), Error>(e) && final(out)@ == old(out)@,
        },
{
    let c = p256_curve();
    let mut t = [0u64;8];
    c.ecdsa_sign_bytes(private, digest, nonce, out, &mut t)
}

} // verus!
