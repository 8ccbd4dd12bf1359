use graviola::field::limbs_lt;
use graviola::p256::{
    bignum_add_p256, bignum_demont_p256, bignum_montmul_p256, bignum_montsqr_p256,
    bignum_sub_p256, bignum_tomont_p256, p256_field, P_256,
};

const A: [u64; 4] = [0xccee76e2f08d3e20, 0xf7634afe18e1be91, 0x3408fafffd2e5363, 0x22d020b485f4ad6d];
const B: [u64; 4] = [0x8b3cd96a83502b4b, 0x5a61d57e5e8c82cd, 0x2d84f0762d111ed3, 0x9d83255744e9215c];
const P_LESS_ONE: [u64; 4] = [0xfffffffffffffffe, 0x00000000ffffffff, 0x0000000000000000, 0xffffffff00000001];
const ALL_ONES: [u64; 4] = [0xffff_ffff_ffff_ffff; 4];

#[test]
fn p256_montmul_of_known_values() {
    let mut z = [0u64; 4];
    bignum_montmul_p256(&mut z, &A, &B);
    assert_eq!(z, [0x403cee58b7dae11c, 0xcf34fc9a2c5e364f, 0xe16118b5a9604d8a, 0x42c9e528ce6aebe1]);
    bignum_montmul_p256(&mut z, &P_LESS_ONE, &P_LESS_ONE);
    assert_eq!(z, [0x0000000300000000, 0x00000001fffffffe, 0xfffffffd00000002, 0xfffffffe00000003]);
    bignum_montmul_p256(&mut z, &A, &[0u64; 4]);
    assert_eq!(z, [0u64; 4]);
    // one factor may be any value of 4 limbs when the other is reduced
    bignum_montmul_p256(&mut z, &ALL_ONES, &B);
    assert_eq!(z, [0xdaef3493a09ee359, 0xa8ec59aec7a63cd6, 0xe9a0feee5ae94c68, 0x3fc559a2fcbb9f9f]);
}

#[test]
fn p256_montsqr_equals_montmul_on_boundary_values() {
    for x in [[0u64; 4], {
        let mut one = [0u64; 4];
        one[0] = 1;
        one
    }, A, B, P_LESS_ONE] {
        let mut s = [0u64; 4];
        let mut m = [0u64; 4];
        bignum_montsqr_p256(&mut s, &x);
        bignum_montmul_p256(&mut m, &x, &x);
        assert_eq!(s, m);
        assert_eq!(limbs_lt(&s, &P_256), 1);
    }
    let mut s = [0u64; 4];
    bignum_montsqr_p256(&mut s, &A);
    assert_eq!(s, [0xc8d7ece182f91a37, 0xbc3ecb7cb62c5409, 0x8a1590da2389fa0e, 0x6bc6b0788ee67994]);
}

#[test]
fn p256_results_are_below_the_prime() {
    let mut z = [0u64; 4];
    bignum_add_p256(&mut z, &P_LESS_ONE, &P_LESS_ONE);
    assert_eq!(limbs_lt(&z, &P_256), 1);
    assert_eq!(z, [0xfffffffffffffffd, 0x00000000ffffffff, 0x0000000000000000, 0xffffffff00000001]);
    bignum_sub_p256(&mut z, &A, &B);
    assert_eq!(z, [0x41b19d786d3d12d4, 0x9d017580ba553bc4, 0x06840a89d01d3490, 0x854cfb5c410b8c12]);
    bignum_sub_p256(&mut z, &B, &A);
    assert_eq!(z, [0xbe4e628792c2ed2b, 0x62fe8a8045aac43b, 0xf97bf5762fe2cb6f, 0x7ab304a2bef473ee]);
    bignum_add_p256(&mut z, &A, &B);
    assert_eq!(z, [0x582b504d73dd696b, 0x51c5207c776e415f, 0x618deb762a3f7237, 0xc053460bcaddcec9]);
    bignum_tomont_p256(&mut z, &ALL_ONES);
    assert_eq!(limbs_lt(&z, &P_256), 1);
    assert_eq!(z, [0x0000000000000002, 0xfffffffcffffffff, 0xfffffffffffffffe, 0x00000003fffffffe]);
    bignum_tomont_p256(&mut z, &P_256);
    assert_eq!(z, [0u64; 4]);
    bignum_demont_p256(&mut z, &ALL_ONES);
    assert_eq!(z, [0xfffffffd00000000, 0xffffffff00000001, 0x00000002fffffffd, 0x00000000fffffffd]);
}

#[test]
fn p256_round_trip_through_the_montgomery_domain() {
    for x in [[0u64; 4], A, B, P_LESS_ONE] {
        let mut m = [0u64; 4];
        bignum_tomont_p256(&mut m, &x);
        let mut back = [0u64; 4];
        bignum_demont_p256(&mut back, &m);
        assert_eq!(back, x);
    }
    let mut m = [0u64; 4];
    bignum_tomont_p256(&mut m, &A);
    assert_eq!(m, [0x0bd418ef0eec6e34, 0x3ce0620c3377406e, 0x868667ff029314c0, 0x1781484a4e0b8fad]);
}

#[test]
fn p256_generic_field_agrees_with_the_kernels() {
    let f = p256_field();
    let mut t = [0u64; 8];
    for (x, y) in [(A, B), (P_LESS_ONE, P_LESS_ONE), (ALL_ONES, B), ([0u64; 4], A)] {
        let mut g = [0u64; 4];
        let mut k = [0u64; 4];
        f.mul(&mut g, &x, &y, &mut t);
        bignum_montmul_p256(&mut k, &x, &y);
        assert_eq!(g, k);
    }
    for x in [A, B, P_LESS_ONE] {
        let mut g = [0u64; 4];
        let mut k = [0u64; 4];
        f.sqr(&mut g, &x, &mut t);
        bignum_montsqr_p256(&mut k, &x);
        assert_eq!(g, k);
        f.to_mont(&mut g, &x, &mut t);
        bignum_tomont_p256(&mut k, &x);
        assert_eq!(g, k);
        f.from_mont(&mut g, &x, &mut t);
        bignum_demont_p256(&mut k, &x);
        assert_eq!(g, k);
        f.add(&mut g, &x, &A);
        bignum_add_p256(&mut k, &x, &A);
        assert_eq!(g, k);
        f.sub(&mut g, &x, &A);
        bignum_sub_p256(&mut k, &x, &A);
        assert_eq!(g, k);
    }
}

#[test]
fn p256_comparisons_and_zero_tests() {
    let f = p256_field();
    assert_eq!(f.is_reduced(&P_LESS_ONE), 1);
    assert_eq!(f.is_reduced(&P_256), 0);
    assert_eq!(f.is_reduced(&ALL_ONES), 0);
    assert_eq!(f.is_reduced(&[0u64; 4]), 1);
    assert_eq!(f.is_zero(&[0u64; 4]), 1);
    assert_eq!(f.is_zero(&A), 0);
    assert_eq!(limbs_lt(&A, &A), 0);
    assert_eq!(limbs_lt(&A, &B), 1);
    assert_eq!(limbs_lt(&B, &A), 0);
}

#[test]
fn p256_power_with_a_small_exponent() {
    let f = p256_field();
    let mut t = [0u64; 8];
    let mut am = [0u64; 4];
    f.to_mont(&mut am, &A, &mut t);
    let mut five = [0u64; 4];
    five[0] = 5;
    let r = f.pow(&am, &five, &mut t);
    let mut plain = [0u64; 4];
    f.from_mont(&mut plain, &r, &mut t);
    assert_eq!(plain, [0x6c72833fd489cebd, 0xda927d1c2da29239, 0xaa7bb31079a0783f, 0x459689894135e3a2]);
    let zero = [0u64; 4];
    assert_eq!(f.pow(&am, &zero, &mut t), f.one(&mut t));
    let e = f.inverse_exponent();
    assert_eq!(e, [0xfffffffffffffffd, 0x00000000ffffffff, 0x0000000000000000, 0xffffffff00000001]);
}
