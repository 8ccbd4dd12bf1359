//! The field of the curve P-384: arithmetic modulo
//! `p = 2^384 - 2^128 - 2^96 + 2^32 - 1` on six limbs, in the Montgomery
//! domain with `R = 2^384`.

use vstd::prelude::*;
use crate::error::Error;
use crate::field::Field;
use crate::jacobian::JacobianPoint;
use crate::ecdsa::{ecdsa_sign_bytes_spec, ecdsa_verify_bytes_spec};
use crate::encoding::be_value;
use crate::weierstrass::{scalar_mul_bytes_spec, encodes_point, Curve, Point};
use crate::limbs::{lemma_radix_values, lemma_value_6, limbs_value, radix};
use crate::montgomery::{
    bignum_modadd, bignum_modsub, bignum_montmul, bignum_montsqr, from_mont, is_mont_word,
    lemma_mont_to_domain, lemma_mont_unique, mont_product, to_mont,
};

verus! {

/// The prime `p` of P-384.
pub open spec fn p384_prime() -> nat {
    0xfffffffffffffffffffffffffffffffffffffffffffffffffffffffffffffffeffffffff0000000000000000ffffffffnat
}

/// The inverse of `R = 2^384` modulo `p`.
pub open spec fn p384_r_inv() -> nat {
    0x14000000140000000c00000002fffffffcfffffffafffffffbfffffffdffffffebffffffd8ffffffe100000006nat
}

/// The limbs of `p`.
pub const P_384: [u64; 6] = [
    0x00000000ffffffff,
    0xffffffff00000000,
    0xfffffffffffffffe,
    0xffffffffffffffff,
    0xffffffffffffffff,
    0xffffffffffffffff,
];

/// The limbs of `R^2 mod p`.
pub const P_384_R2: [u64; 6] = [
    0xfffffffe00000001,
    0x0000000200000000,
    0xfffffffe00000000,
    0x0000000200000000,
    0x0000000000000001,
    0x0000000000000000,
];

/// The word `w` with `p * w == -1 (mod 2^64)`.
pub const P_384_W: u64 = 0x0000000100000001;

/// The constant for `R^2 mod p` is what its name says, by an explicit quotient.
proof fn lemma_p384_r2()
    ensures
        limbs_value(P_384_R2@) == (radix(6) * radix(6)) % p384_prime(),
{
    lemma_value_6(P_384_R2@);
    lemma_radix_values();
    let v = limbs_value(P_384_R2@) as int;
    assert(v == 0x10000000200000000fffffffe000000000000000200000000fffffffe00000001int);
    let r = radix(6) as int;
    let p = p384_prime() as int;
    assert(r * r == 0x1000000000000000000000000000000000000000000000000000000000000000100000000ffffffffffffffff00000001int * p + v);
    vstd::arithmetic::div_mod::lemma_fundamental_div_mod_converse_mod(r * r, p, 0x1000000000000000000000000000000000000000000000000000000000000000100000000ffffffffffffffff00000001int, v);
}

/// The constant for the inverse of `R` modulo `p` is what its name says, by an explicit quotient.
proof fn lemma_p384_r_inv()
    ensures
        (radix(6) * p384_r_inv()) % p384_prime() == 1,
{
    lemma_radix_values();
    let r = radix(6) as int;
    let i = p384_r_inv() as int;
    let p = p384_prime() as int;
    assert(r * i == 0x14000000140000000c00000002fffffffcfffffffafffffffbfffffffe00000000000000010000000100000001int * p + 1);
    vstd::arithmetic::div_mod::lemma_fundamental_div_mod_converse_mod(r * i, p, 0x14000000140000000c00000002fffffffcfffffffafffffffbfffffffe00000000000000010000000100000001int, 1);
}

/// The constants are what their names say.
pub proof fn lemma_p384_constants()
    ensures
        limbs_value(P_384@) == p384_prime(),
        limbs_value(P_384_R2@) == (radix(6) * radix(6)) % p384_prime(),
        (radix(6) * p384_r_inv()) % p384_prime() == 1,
        is_mont_word(P_384@[0], P_384_W),
        p384_prime() < radix(6),
{
    lemma_value_6(P_384@);
    lemma_radix_values();
    lemma_p384_r2();
    lemma_p384_r_inv();
    assert(P_384@[0] * P_384_W + 1 == 0x1_0000_0000_0000_0000) by {
        assert(P_384@[0] == 0xffffffff);
        assert(P_384_W == 0x100000001);
    }
}

/// Montgomery product: `z := x * y / 2^384 (mod p)`, for `x * y <= 2^384 p`,
/// which holds whenever one of the factors is below `p`.  The result is
/// fully reduced.
pub fn bignum_montmul_p384(z: &mut [u64; 6], x: &[u64; 6], y: &[u64; 6])
    requires
        limbs_value(x@) * limbs_value(y@) <= radix(6) * p384_prime(),
    ensures
        limbs_value(final(z)@) < p384_prime(),
        limbs_value(final(z)@) == mont_product(
            limbs_value(x@),
            limbs_value(y@),
            p384_r_inv(),
            p384_prime(),
        ),
{
    let mut t = [0u64;12];
    proof {
        lemma_p384_constants();
    }
    bignum_montmul(z, x, y, &P_384, P_384_W, &mut t);
    proof {
        lemma_mont_unique(
            limbs_value(z@),
            limbs_value(x@) * limbs_value(y@),
            radix(6),
            p384_r_inv(),
            p384_prime(),
        );
    }
}

/// Montgomery square: `z := x^2 / 2^384 (mod p)`, for `x^2 <= 2^384 p`,
/// which holds in particular for `x < p`.  The result is fully reduced, and
/// it is the Montgomery product of `x` with itself.
pub fn bignum_montsqr_p384(z: &mut [u64; 6], x: &[u64; 6])
    requires
        limbs_value(x@) * limbs_value(x@) <= radix(6) * p384_prime(),
    ensures
        limbs_value(final(z)@) < p384_prime(),
        limbs_value(final(z)@) == mont_product(
            limbs_value(x@),
            limbs_value(x@),
            p384_r_inv(),
            p384_prime(),
        ),
{
    let mut t = [0u64;12];
    proof {
        lemma_p384_constants();
    }
    bignum_montsqr(z, x, &P_384, P_384_W, &mut t);
    proof {
        lemma_mont_unique(
            limbs_value(z@),
            limbs_value(x@) * limbs_value(x@),
            radix(6),
            p384_r_inv(),
            p384_prime(),
        );
    }
}

/// Into the Montgomery domain: `z := x * 2^384 (mod p)`, for any `x`.
pub fn bignum_tomont_p384(z: &mut [u64; 6], x: &[u64; 6])
    ensures
        limbs_value(final(z)@) < p384_prime(),
        limbs_value(final(z)@) == to_mont(limbs_value(x@), radix(6), p384_prime()),
{
    proof {
        lemma_p384_constants();
        crate::limbs::lemma_value_bound(x@);
        crate::montgomery::lemma_mont_factor_bound(
            limbs_value(x@),
            limbs_value(P_384_R2@),
            radix(6),
            p384_prime(),
        );
        lemma_mont_to_domain(
            limbs_value(x@),
            limbs_value(P_384_R2@),
            radix(6),
            p384_r_inv(),
            p384_prime(),
        );
    }
    bignum_montmul_p384(z, x, &P_384_R2);
}

/// Out of the Montgomery domain: `z := x / 2^384 (mod p)`, for any `x`.
pub fn bignum_demont_p384(z: &mut [u64; 6], x: &[u64; 6])
    ensures
        limbs_value(final(z)@) < p384_prime(),
        limbs_value(final(z)@) == from_mont(limbs_value(x@), p384_r_inv(), p384_prime()),
{
    let one: [u64; 6] = [1, 0, 0, 0, 0, 0];
    proof {
        lemma_p384_constants();
        lemma_value_6(one@);
        crate::limbs::lemma_value_bound(x@);
        crate::montgomery::lemma_mont_factor_bound(
            limbs_value(x@),
            limbs_value(one@),
            radix(6),
            p384_prime(),
        );
        assert(limbs_value(x@) * 1 == limbs_value(x@));
    }
    bignum_montmul_p384(z, x, &one);
}

/// Field sum: `z := (x + y) mod p` for `x, y < p`.
pub fn bignum_add_p384(z: &mut [u64; 6], x: &[u64; 6], y: &[u64; 6])
    requires
        limbs_value(x@) < p384_prime(),
        limbs_value(y@) < p384_prime(),
    ensures
        limbs_value(final(z)@) < p384_prime(),
        limbs_value(final(z)@) == (limbs_value(x@) + limbs_value(y@)) % p384_prime(),
{
    proof {
        lemma_p384_constants();
    }
    bignum_modadd(z, x, y, &P_384);
}

/// Field difference: `z := (x - y) mod p` for `x, y < p`.
pub fn bignum_sub_p384(z: &mut [u64; 6], x: &[u64; 6], y: &[u64; 6])
    requires
        limbs_value(x@) < p384_prime(),
        limbs_value(y@) < p384_prime(),
    ensures
        limbs_value(final(z)@) < p384_prime(),
        limbs_value(final(z)@) == (limbs_value(x@) - limbs_value(y@)) % (p384_prime() as int),
{
    proof {
        lemma_p384_constants();
    }
    bignum_modsub(z, x, y, &P_384);
}

/// Almost-Montgomery square: `z := x^2 / 2^384 (mod p)` for any `x`, where
/// the result is congruent to the Montgomery square and below `2^384`, but
/// not always below `p`.  Such a value may be one factor of a Montgomery
/// product whose other factor is fully reduced.
pub fn bignum_amontsqr_p384(z: &mut [u64; 6], x: &[u64; 6])
    ensures
        limbs_value(final(z)@) < radix(6),
        limbs_value(final(z)@) % p384_prime() == mont_product(
            limbs_value(x@),
            limbs_value(x@),
            p384_r_inv(),
            p384_prime(),
        ),
{
    let mut t = [0u64;12];
    proof {
        lemma_p384_constants();
    }
    bignum_montsqr(z, x, &P_384, P_384_W, &mut t);
    proof {
        crate::limbs::lemma_value_bound(z@);
        let p = p384_prime();
        let zr = limbs_value(z@) % p;
        let xx = limbs_value(x@) * limbs_value(x@);
        vstd::arithmetic::div_mod::lemma_mul_mod_noop_left(
            limbs_value(z@) as int,
            radix(6) as int,
            p as int,
        );
        lemma_mont_unique(zr, xx, radix(6), p384_r_inv(), p);
    }
}

/// The coefficient `b` of the curve.
pub open spec fn p384_b() -> nat {
    0xb3312fa7e23ee7e4988e056be3f82d19181d9c6efe8141120314088f5013875ac656398d8a2ed19d2a85c8edd3ec2aefnat
}

/// The order `n` of the group of points.
pub open spec fn p384_order() -> nat {
    0xffffffffffffffffffffffffffffffffffffffffffffffffc7634d81f4372ddf581a0db248b0a77aecec196accc52973nat
}

/// The affine `x` of the base point.
pub open spec fn p384_gx() -> nat {
    0xaa87ca22be8b05378eb1c71ef320ad746e1d3b628ba79b9859f741e082542a385502f25dbf55296c3a545e3872760ab7nat
}

/// The affine `y` of the base point.
pub open spec fn p384_gy() -> nat {
    0x3617de4a96262c6f5d9e98bf9292dc29f8f41dbd289a147ce9da3113b5f0b8c00a60b1ce1d7e819d7a431d7c90ea0e5fnat
}

/// The limbs of `b` in the Montgomery domain.
pub const P_384_B: [u64; 6] = [
    0x081188719d412dcc,
    0xf729add87a4c32ec,
    0x77f2209b1920022e,
    0xe3374bee94938ae2,
    0xb62b21f41f022094,
    0xcd08114b604fbff9,
];

/// The limbs of the group order.
pub const P_384_ORDER: [u64; 6] = [
    0xecec196accc52973,
    0x581a0db248b0a77a,
    0xc7634d81f4372ddf,
    0xffffffffffffffff,
    0xffffffffffffffff,
    0xffffffffffffffff,
];

/// The limbs of the base point's `x` in the Montgomery domain.
pub const P_384_GX: [u64; 6] = [
    0x3dd0756649c0b528,
    0x20e378e2a0d6ce38,
    0x879c3afc541b4d6e,
    0x6454868459a30eff,
    0x812ff723614ede2b,
    0x4d3aadc2299e1513,
];

/// The limbs of the base point's `y` in the Montgomery domain.
pub const P_384_GY: [u64; 6] = [
    0x23043dad4b03a4fe,
    0xa1bfa8bf7bb4a9ac,
    0x8bade7562e83b050,
    0xc6c3521968f4ffd9,
    0xdd8002263969a840,
    0x2b78abc25a15c5e9,
];

/// The limbs of 1 in the Montgomery domain, that is of `R mod p`.
pub const P_384_ONE: [u64; 6] = [
    0xffffffff00000001,
    0x00000000ffffffff,
    0x0000000000000001,
    0x0000000000000000,
    0x0000000000000000,
    0x0000000000000000,
];

/// The constant for the coefficient `b` is what its name says, by an explicit quotient.
proof fn lemma_p384_b()
    ensures
        limbs_value(P_384_B@) == (p384_b() * radix(6)) % p384_prime(),
{
    lemma_value_6(P_384_B@);
    lemma_radix_values();
    let v = limbs_value(P_384_B@) as int;
    assert(v == 0xcd08114b604fbff9b62b21f41f022094e3374bee94938ae277f2209b1920022ef729add87a4c32ec081188719d412dccint);
    let r = radix(6) as int;
    let c = p384_b() as int;
    let p = p384_prime() as int;
    assert(c * r == 0xb3312fa7e23ee7e4988e056be3f82d19181d9c6efe8141120314088f5013875b798769361f9ee929a552b63d9d412dccint * p + v);
    vstd::arithmetic::div_mod::lemma_fundamental_div_mod_converse_mod(c * r, p, 0xb3312fa7e23ee7e4988e056be3f82d19181d9c6efe8141120314088f5013875b798769361f9ee929a552b63d9d412dccint, v);
}

/// The constant for the base point's `x` is what its name says, by an explicit quotient.
proof fn lemma_p384_gx()
    ensures
        limbs_value(P_384_GX@) == (p384_gx() * radix(6)) % p384_prime(),
{
    lemma_value_6(P_384_GX@);
    lemma_radix_values();
    let v = limbs_value(P_384_GX@) as int;
    assert(v == 0x4d3aadc2299e1513812ff723614ede2b6454868459a30eff879c3afc541b4d6e20e378e2a0d6ce383dd0756649c0b528int);
    let r = radix(6) as int;
    let c = p384_gx() as int;
    let p = p384_prime() as int;
    assert(c * r == 0xaa87ca22be8b05378eb1c71ef320ad746e1d3b628ba79b9859f741e082542a38ff8abc812867f8c687912a8e49c0b528int * p + v);
    vstd::arithmetic::div_mod::lemma_fundamental_div_mod_converse_mod(c * r, p, 0xaa87ca22be8b05378eb1c71ef320ad746e1d3b628ba79b9859f741e082542a38ff8abc812867f8c687912a8e49c0b528int, v);
}

/// The constant for the base point's `y` is what its name says, by an explicit quotient.
proof fn lemma_p384_gy()
    ensures
        limbs_value(P_384_GY@) == (p384_gy() * radix(6)) % p384_prime(),
{
    lemma_value_6(P_384_GY@);
    lemma_radix_values();
    let v = limbs_value(P_384_GY@) as int;
    assert(v == 0x2b78abc25a15c5e9dd8002263969a840c6c3521968f4ffd98bade7562e83b050a1bfa8bf7bb4a9ac23043dad4b03a4feint);
    let r = radix(6) as int;
    let c = p384_gy() as int;
    let p = p384_prime() as int;
    assert(c * r == 0x3617de4a96262c6f5d9e98bf9292dc29f8f41dbd289a147ce9da3113b5f0b8c040789018e9bc8c576e07e2ab4b03a4feint * p + v);
    vstd::arithmetic::div_mod::lemma_fundamental_div_mod_converse_mod(c * r, p, 0x3617de4a96262c6f5d9e98bf9292dc29f8f41dbd289a147ce9da3113b5f0b8c040789018e9bc8c576e07e2ab4b03a4feint, v);
}

/// The constant for 1 is what its name says, by an explicit quotient.
proof fn lemma_p384_one()
    ensures
        limbs_value(P_384_ONE@) == (1 * radix(6)) % p384_prime(),
{
    lemma_value_6(P_384_ONE@);
    lemma_radix_values();
    let v = limbs_value(P_384_ONE@) as int;
    assert(v == 0x100000000ffffffffffffffff00000001int);
    let r = radix(6) as int;
    let c = 1 as int;
    let p = p384_prime() as int;
    assert(c * r == 0x1int * p + v);
    vstd::arithmetic::div_mod::lemma_fundamental_div_mod_converse_mod(c * r, p, 0x1int, v);
}

/// The curve constants are what their names say.
pub proof fn lemma_p384_curve_constants()
    ensures
        limbs_value(P_384_B@) == (p384_b() * radix(6)) % p384_prime(),
        limbs_value(P_384_GX@) == (p384_gx() * radix(6)) % p384_prime(),
        limbs_value(P_384_GY@) == (p384_gy() * radix(6)) % p384_prime(),
        limbs_value(P_384_ONE@) == (1 * radix(6)) % p384_prime(),
        limbs_value(P_384_ORDER@) == p384_order(),
        p384_b() < p384_prime(),
        p384_gx() < p384_prime(),
        p384_gy() < p384_prime(),
{
    lemma_p384_b();
    lemma_p384_gx();
    lemma_p384_gy();
    lemma_p384_one();
    lemma_value_6(P_384_ORDER@);
}

/// The parameters of the field of P-384.
pub open spec fn p384_field_spec() -> Field<6> {
    Field {
        m: P_384,
        r2: P_384_R2,
        w: P_384_W,
        p: Ghost(p384_prime()),
        r_inv: Ghost(p384_r_inv()),
    }
}

/// The field of P-384.
#[verifier::when_used_as_spec(p384_field_spec)]
pub fn p384_field() -> (f: Field<6>)
    ensures
        f == p384_field_spec(),
        f.wf(),
        f.p@ == p384_prime(),
        f.r_inv@ == p384_r_inv(),
{
    proof {
        lemma_p384_constants();
    }
    Field {
        m: P_384,
        r2: P_384_R2,
        w: P_384_W,
        p: Ghost(p384_prime()),
        r_inv: Ghost(p384_r_inv()),
    }
}

/// The inverse of `R` modulo the group order.
pub open spec fn p384_order_r_inv() -> nat {
    0x355ca87de39dbb1fa150206ce4f194ac78d4ba5866d61787e29f9fb70a9da219d26d4aeba664edb0610ae855f2c0d911nat
}

/// The limbs of `R^2` modulo the group order.
pub const P_384_N_R2: [u64; 6] = [
    0x2d319b2419b409a9,
    0xff3d81e5df1aa419,
    0xbc3e483afcb82947,
    0xd40d49174aab1cc5,
    0x3fb05b7a28266895,
    0x0c84ee012b39bf21,
];

/// The word `w` with `n * w == -1 (mod 2^64)` for the group order `n`.
pub const P_384_N_W: u64 = 0x6ed46089e88fdc45;

/// The constant for `R^2` modulo the group order is what its name says, by an explicit quotient.
proof fn lemma_p384_order_r2()
    ensures
        limbs_value(P_384_N_R2@) == (radix(6) * radix(6)) % p384_order(),
{
    lemma_value_6(P_384_N_R2@);
    lemma_radix_values();
    let v = limbs_value(P_384_N_R2@) as int;
    assert(v == 0xc84ee012b39bf213fb05b7a28266895d40d49174aab1cc5bc3e483afcb82947ff3d81e5df1aa4192d319b2419b409a9int);
    let r = radix(6) as int;
    let q = p384_order() as int;
    assert(r * r == 0x1000000000000000000000000000000000000000000000000389cb27e0bc8d220a7e5f24db74f58851313e695333ad68dint * q + v);
    vstd::arithmetic::div_mod::lemma_fundamental_div_mod_converse_mod(r * r, q, 0x1000000000000000000000000000000000000000000000000389cb27e0bc8d220a7e5f24db74f58851313e695333ad68dint, v);
}

/// The constant for the inverse of `R` modulo the group order is what its name says, by an explicit quotient.
proof fn lemma_p384_order_r_inv()
    ensures
        (radix(6) * p384_order_r_inv()) % p384_order() == 1,
{
    lemma_radix_values();
    let r = radix(6) as int;
    let i = p384_order_r_inv() as int;
    let q = p384_order() as int;
    assert(r * i == 0x355ca87de39dbb1fa150206ce4f194ac78d4ba5866d61787ee6c8e3df45624ce54a885995d20bb2b6ed46089e88fdc45int * q + 1);
    vstd::arithmetic::div_mod::lemma_fundamental_div_mod_converse_mod(r * i, q, 0x355ca87de39dbb1fa150206ce4f194ac78d4ba5866d61787ee6c8e3df45624ce54a885995d20bb2b6ed46089e88fdc45int, 1);
}

/// The constants of the field of scalars are what their names say.
pub proof fn lemma_p384_order_constants()
    ensures
        limbs_value(P_384_ORDER@) == p384_order(),
        limbs_value(P_384_N_R2@) == (radix(6) * radix(6)) % p384_order(),
        (radix(6) * p384_order_r_inv()) % p384_order() == 1,
        is_mont_word(P_384_ORDER@[0], P_384_N_W),
{
    lemma_value_6(P_384_ORDER@);
    lemma_p384_order_r2();
    lemma_p384_order_r_inv();
    assert(P_384_ORDER@[0] * P_384_N_W + 1 == 0x6691ffc91b8b0ccd * 0x1_0000_0000_0000_0000) by {
        assert(P_384_ORDER@[0] == 0xecec196accc52973);
        assert(P_384_N_W == 0x6ed46089e88fdc45);
    }
    vstd::arithmetic::div_mod::lemma_fundamental_div_mod_converse_mod(
        P_384_ORDER@[0] * P_384_N_W + 1,
        0x1_0000_0000_0000_0000,
        0x6691ffc91b8b0ccd,
        0,
    );
}

/// The parameters of the field of scalars of P-384, that is of the
/// integers modulo the group order.
pub open spec fn p384_scalar_field_spec() -> Field<6> {
    Field {
        m: P_384_ORDER,
        r2: P_384_N_R2,
        w: P_384_N_W,
        p: Ghost(p384_order()),
        r_inv: Ghost(p384_order_r_inv()),
    }
}

/// The field of scalars of P-384.
#[verifier::when_used_as_spec(p384_scalar_field_spec)]
pub fn p384_scalar_field() -> (f: Field<6>)
    ensures
        f == p384_scalar_field_spec(),
        f.wf(),
        f.p@ == p384_order(),
{
    proof {
        lemma_p384_order_constants();
    }
    Field {
        m: P_384_ORDER,
        r2: P_384_N_R2,
        w: P_384_N_W,
        p: Ghost(p384_order()),
        r_inv: Ghost(p384_order_r_inv()),
    }
}

/// The curve P-384.
pub fn p384_curve() -> (c: Curve<6>)
    ensures
        c.wf(),
        c.field == p384_field_spec(),
        c.field.p@ == p384_prime(),
        c.field.r_inv@ == p384_r_inv(),
        c.field.value(c.b@) == p384_b(),
        limbs_value(c.order@) == p384_order(),
        c.scalar_field == p384_scalar_field_spec(),
        c.generator() == (JacobianPoint { x: p384_gx(), y: p384_gy(), z: 1 }),
{
    let f = p384_field();
    let sf = p384_scalar_field();
    proof {
        lemma_p384_constants();
        lemma_p384_curve_constants();
        lemma_p384_order_constants();
        crate::montgomery::lemma_mont_round_trip(
            p384_b(),
            radix(6),
            p384_r_inv(),
            p384_prime(),
        );
        crate::montgomery::lemma_mont_round_trip(
            p384_gx(),
            radix(6),
            p384_r_inv(),
            p384_prime(),
        );
        crate::montgomery::lemma_mont_round_trip(
            p384_gy(),
            radix(6),
            p384_r_inv(),
            p384_prime(),
        );
    }
    Curve {
        field: f,
        b: P_384_B,
        order: P_384_ORDER,
        scalar_field: sf,
        gx: P_384_GX,
        gy: P_384_GY,
    }
}

/// The base point `G` of P-384.
pub fn p384_base_point() -> (g: Point<6>)
    ensures
        g.reduced(&p384_field()),
        g.model(&p384_field()) == (JacobianPoint { x: p384_gx(), y: p384_gy(), z: 1 }),
{
    proof {
        lemma_p384_constants();
        lemma_p384_curve_constants();
        crate::montgomery::lemma_mont_round_trip(
            p384_gx(),
            radix(6),
            p384_r_inv(),
            p384_prime(),
        );
        crate::montgomery::lemma_mont_round_trip(
            p384_gy(),
            radix(6),
            p384_r_inv(),
            p384_prime(),
        );
        crate::montgomery::lemma_mont_round_trip(1, radix(6), p384_r_inv(), p384_prime());
    }
    Point { x: P_384_GX, y: P_384_GY, z: P_384_ONE }
}

/// Scalar multiplication on P-384 with encoded operands: the scalar as
/// 48 big-endian bytes with `0 < k < n`, the point and the product in the
/// uncompressed form of 97 bytes.  On any error `out` is left as it was.
pub fn p384_scalar_mul(scalar: &[u8], point: &[u8], out: &mut [u8]) -> (r: Result<(), Error>)
    ensures
        final(out)@.len() == old(out)@.len(),
        match scalar_mul_bytes_spec(
            scalar@,
            point@,
            old(out)@.len(),
            6,
            p384_order(),
            p384_b(),
            p384_prime(),
        ) {
            Ok(prod) => r is Ok && encodes_point(final(out)@, prod, 6, p384_prime()),
            Err(e) => r == Err::<(), Error>(e) && final(out)@ == old(out)@,
        },
{
    let c = p384_curve();
    let mut t = [0u64;12];
    c.scalar_mul_bytes(scalar, point, out, &mut t)
}

/// ECDSA verification on P-384: the public key in the uncompressed form
/// of 97 bytes, the digest on 48 bytes, and the signature as `r` then
/// `s` on 96 bytes.  A signature that does not fit is `BadSignature`.
pub fn p384_ecdsa_verify(public: &[u8], digest: &[u8], signature: &[u8]) -> (res: Result<
    (),
    Error,
>)
    ensures
        res == ecdsa_verify_bytes_spec(
            public@,
            digest@,
            signature@,
            6,
            p384_order(),
            p384_b(),
            JacobianPoint { x: p384_gx(), y: p384_gy(), z: 1 },
            p384_prime(),
        ),
{
    let c = p384_curve();
    let mut t = [0u64;12];
    c.ecdsa_verify_bytes(public, digest, signature, &mut t)
}

/// ECDSA signing on P-384 with a nonce that the caller supplies: the
/// private key, the digest and the nonce on 48 bytes each, and the
/// signature written to the 96 bytes of `out` as `r` then `s`.  The nonce
/// must be fresh, secret and uniformly random in `0 < k < n` for every
/// signature.  On any error `out` is left as it was.
pub fn p384_ecdsa_sign(private: &[u8], digest: &[u8], nonce: &[u8], out: &mut [u8]) -> (res:
    Result<(), Error>)
    ensures
        final(out)@.len() == old(out)@.len(),
        match ecdsa_sign_bytes_spec(
            private@,
            digest@,
            nonce@,
            old(out)@.len(),
            6,
            p384_order(),
            JacobianPoint { x: p384_gx(), y: p384_gy(), z: 1 },
            p384_prime(),
        ) {
            Ok((r, s)) => res is Ok && be_value(final(out)@.subrange(0, 48)) == r && be_value(
                final(out)@.subrange(48, 96),
            ) == s,
            Err(e) => res == Err::<(), Error>(e) && final(out)@ == old(out)@,
        },
{
    let c = p384_curve();
    let mut t = [0u64;12];
    c.ecdsa_sign_bytes(private, digest, nonce, out, &mut t)
}

} // verus!
