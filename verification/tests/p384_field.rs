use graviola::field::limbs_lt;
use graviola::p384::{
    bignum_add_p384, bignum_demont_p384, bignum_montmul_p384, bignum_montsqr_p384,
    bignum_sub_p384, bignum_tomont_p384, p384_field, P_384,
    bignum_amontsqr_p384,
};

const A: [u64; 6] = [0x29a827b08ee50d83, 0x56aa16bfa53b489c, 0x067c76d9a6a5be92, 0xa46f6583b29cf0a3, 0xe4dcf2c42137c5dc, 0xe7845acc667e04e4];
const B: [u64; 6] = [0x4792b45d178c13e0, 0xdf38081a705f49b8, 0xe0a8f8fa640591f3, 0x421c545acaa061cb, 0x61d87af23c7be69e, 0x7a1ceb1e871bc053];
const P_LESS_ONE: [u64; 6] = [0x00000000fffffffe, 0xffffffff00000000, 0xfffffffffffffffe, 0xffffffffffffffff, 0xffffffffffffffff, 0xffffffffffffffff];
const ALL_ONES: [u64; 6] = [0xffff_ffff_ffff_ffff; 6];

#[test]
fn p384_montmul_of_known_values() {
    let mut z = [0u64; 6];
    bignum_montmul_p384(&mut z, &A, &B);
    assert_eq!(z, [0xcd3f6e2ccff84a2d, 0xb8d95bb685510807, 0x195c86393d6e2ecd, 0xe9304692cdca8048, 0x7373be993482479d, 0x0fa5dbdf43794e6b]);
    bignum_montmul_p384(&mut z, &P_LESS_ONE, &P_LESS_ONE);
    assert_eq!(z, [0xffffffe100000006, 0xffffffebffffffd8, 0xfffffffbfffffffd, 0xfffffffcfffffffa, 0x0000000c00000002, 0x0000001400000014]);
    bignum_montmul_p384(&mut z, &A, &[0u64; 6]);
    assert_eq!(z, [0u64; 6]);
    // one factor may be any value of 6 limbs when the other is reduced
    bignum_montmul_p384(&mut z, &ALL_ONES, &B);
    assert_eq!(z, [0xba46d5869ff7f2fc, 0xbd8e976315193490, 0xaa181e2bdf80d5ed, 0x81259dc130173d56, 0x8ebcf8e0fa1ee03b, 0x049c55a6886458fd]);
}

#[test]
fn p384_montsqr_equals_montmul_on_boundary_values() {
    for x in [[0u64; 6], {
        let mut one = [0u64; 6];
        one[0] = 1;
        one
    }, A, B, P_LESS_ONE] {
        let mut s = [0u64; 6];
        let mut m = [0u64; 6];
        bignum_montsqr_p384(&mut s, &x);
        bignum_montmul_p384(&mut m, &x, &x);
        assert_eq!(s, m);
        assert_eq!(limbs_lt(&s, &P_384), 1);
    }
    let mut s = [0u64; 6];
    bignum_montsqr_p384(&mut s, &A);
    assert_eq!(s, [0x92a50fc40b67cb4c, 0xbf9e83527d245e1f, 0x478020be260baedf, 0x60cdb53f9a9e4260, 0xdffd9721420213ce, 0xd1f28d780d6dee91]);
}

#[test]
fn p384_results_are_below_the_prime() {
    let mut z = [0u64; 6];
    bignum_add_p384(&mut z, &P_LESS_ONE, &P_LESS_ONE);
    assert_eq!(limbs_lt(&z, &P_384), 1);
    assert_eq!(z, [0x00000000fffffffd, 0xffffffff00000000, 0xfffffffffffffffe, 0xffffffffffffffff, 0xffffffffffffffff, 0xffffffffffffffff]);
    bignum_sub_p384(&mut z, &A, &B);
    assert_eq!(z, [0xe21573537758f9a3, 0x77720ea534dbfee3, 0x25d37ddf42a02c9e, 0x62531128e7fc8ed7, 0x830477d1e4bbdf3e, 0x6d676faddf624491]);
    bignum_sub_p384(&mut z, &B, &A);
    assert_eq!(z, [0x1dea8cad88a7065c, 0x888df159cb24011c, 0xda2c8220bd5fd360, 0x9daceed718037128, 0x7cfb882e1b4420c1, 0x92989052209dbb6e]);
    bignum_add_p384(&mut z, &A, &B);
    assert_eq!(z, [0x713adc0ca6712164, 0x35e21edb159a9254, 0xe7256fd40aab5087, 0xe68bb9de7d3d526e, 0x46b56db65db3ac7a, 0x61a145eaed99c538]);
    bignum_tomont_p384(&mut z, &ALL_ONES);
    assert_eq!(limbs_lt(&z, &P_384), 1);
    assert_eq!(z, [0xffffffff00000000, 0x0000000100000000, 0xfffffffdffffffff, 0x0000000200000000, 0x0000000000000001, 0x0000000000000000]);
    bignum_tomont_p384(&mut z, &P_384);
    assert_eq!(z, [0u64; 6]);
    bignum_demont_p384(&mut z, &ALL_ONES);
    assert_eq!(z, [0x0000001ffffffffa, 0x0000001300000027, 0x0000000400000001, 0x0000000300000005, 0xfffffff3fffffffd, 0xffffffebffffffeb]);
}

#[test]
fn p384_round_trip_through_the_montgomery_domain() {
    for x in [[0u64; 6], A, B, P_LESS_ONE] {
        let mut m = [0u64; 6];
        bignum_tomont_p384(&mut m, &x);
        let mut back = [0u64; 6];
        bignum_demont_p384(&mut back, &m);
        assert_eq!(back, x);
    }
    let mut m = [0u64; 6];
    bignum_tomont_p384(&mut m, &A);
    assert_eq!(m, [0xc78db400ad756b58, 0xf86634977e3a88f4, 0xc8177fec8aefd7b6, 0xd6a6a500dd8c93a3, 0x7cbe946429ea95c5, 0x46ad8147d8ad6847]);
}

#[test]
fn p384_generic_field_agrees_with_the_kernels() {
    let f = p384_field();
    let mut t = [0u64; 12];
    for (x, y) in [(A, B), (P_LESS_ONE, P_LESS_ONE), (ALL_ONES, B), ([0u64; 6], A)] {
        let mut g = [0u64; 6];
        let mut k = [0u64; 6];
        f.mul(&mut g, &x, &y, &mut t);
        bignum_montmul_p384(&mut k, &x, &y);
        assert_eq!(g, k);
    }
    for x in [A, B, P_LESS_ONE] {
        let mut g = [0u64; 6];
        let mut k = [0u64; 6];
        f.sqr(&mut g, &x, &mut t);
        bignum_montsqr_p384(&mut k, &x);
        assert_eq!(g, k);
        f.to_mont(&mut g, &x, &mut t);
        bignum_tomont_p384(&mut k, &x);
        assert_eq!(g, k);
        f.from_mont(&mut g, &x, &mut t);
        bignum_demont_p384(&mut k, &x);
        assert_eq!(g, k);
        f.add(&mut g, &x, &A);
        bignum_add_p384(&mut k, &x, &A);
        assert_eq!(g, k);
        f.sub(&mut g, &x, &A);
        bignum_sub_p384(&mut k, &x, &A);
        assert_eq!(g, k);
    }
}

#[test]
fn p384_comparisons_and_zero_tests() {
    let f = p384_field();
    assert_eq!(f.is_reduced(&P_LESS_ONE), 1);
    assert_eq!(f.is_reduced(&P_384), 0);
    assert_eq!(f.is_reduced(&ALL_ONES), 0);
    assert_eq!(f.is_reduced(&[0u64; 6]), 1);
    assert_eq!(f.is_zero(&[0u64; 6]), 1);
    assert_eq!(f.is_zero(&A), 0);
    assert_eq!(limbs_lt(&A, &A), 0);
    assert_eq!(limbs_lt(&A, &B), 0);
    assert_eq!(limbs_lt(&B, &A), 1);
}

#[test]
fn p384_power_with_a_small_exponent() {
    let f = p384_field();
    let mut t = [0u64; 12];
    let mut am = [0u64; 6];
    f.to_mont(&mut am, &A, &mut t);
    let mut five = [0u64; 6];
    five[0] = 5;
    let r = f.pow(&am, &five, &mut t);
    let mut plain = [0u64; 6];
    f.from_mont(&mut plain, &r, &mut t);
    assert_eq!(plain, [0xede0d14f5400a121, 0x22dc2863bb87e148, 0x656036c366a3f9d0, 0xcd4d14461ee03fee, 0x4465e5c9751f5940, 0xc9fa67a51166c1af]);
    let zero = [0u64; 6];
    assert_eq!(f.pow(&am, &zero, &mut t), f.one(&mut t));
    let e = f.inverse_exponent();
    assert_eq!(e, [0x00000000fffffffd, 0xffffffff00000000, 0xfffffffffffffffe, 0xffffffffffffffff, 0xffffffffffffffff, 0xffffffffffffffff]);
}

#[test]
fn p384_almost_square_is_congruent_to_the_square() {
    // any input is allowed, and the result may stay above the prime
    for x in [[0xffffffffffffffff, 0xffffffffffffffff, 0xffffffffffffffff, 0xffffffffffffffff, 0xffffffffffffffff, 0xffffffffffffffff], [0xffffff57103ae4de, 0xffffffffffffffff, 0xffffffffffffffff, 0xffffffffffffffff, 0xffffffffffffffff, 0xffffffffffffffff], [0x00000000fffffffe, 0xffffffff00000000, 0xfffffffffffffffe, 0xffffffffffffffff, 0xffffffffffffffff, 0xffffffffffffffff], [0u64; 6]] {
        let mut almost = [0u64; 6];
        bignum_amontsqr_p384(&mut almost, &x);
        // bring both fully below the prime through one more product by R^2 / R
        let mut one = [0u64; 6];
        one[0] = 1;
        let mut r_mod_p = [0u64; 6];
        bignum_tomont_p384(&mut r_mod_p, &one);
        let mut reduced = [0u64; 6];
        bignum_montmul_p384(&mut reduced, &almost, &r_mod_p);
        let mut x_red = [0u64; 6];
        bignum_montmul_p384(&mut x_red, &x, &r_mod_p);
        let mut expected = [0u64; 6];
        bignum_montsqr_p384(&mut expected, &x_red);
        assert_eq!(reduced, expected);
    }
}
