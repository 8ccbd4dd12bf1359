//! Montgomery reduction for any odd modulus held as a limb vector.
//!
//! With `R = 2^(64 n)` for a modulus of `n` limbs, reduction maps a
//! double-length `t` to a value congruent to `t / R`.  The result is always
//! below `R` (the almost-reduced form), and it is fully reduced whenever
//! `t <= R * m`.

use vstd::prelude::*;
use vstd::slice::slice_subrange;
use vstd::arithmetic::div_mod::{
    lemma_fundamental_div_mod, lemma_mod_multiples_vanish, lemma_mul_mod_noop_general,
    lemma_small_mod,
};
use vstd::arithmetic::mul::lemma_mul_is_associative;
use crate::limbs::{
    adc, and_not, lemma_radix_add, lemma_radix_pos, lemma_radix_step, lemma_value_all_zero,
    lemma_value_bound, lemma_value_full, lemma_value_low_limb, lemma_value_split,
    lemma_value_update, lemma_value_window, limbs_value, mac, radix,
};
use crate::bignum::{bignum_copy, bignum_mul, bignum_sqr, mul_add_row, mul_sub_row};

verus! {

/// `w` is the word that cancels the lowest limb of a multiple of the
/// modulus: `m0 * w == -1 (mod 2^64)`.
pub open spec fn is_mont_word(m0: u64, w: u64) -> bool {
    (m0 * w + 1) % 0x1_0000_0000_0000_0000 == 0
}

/// The Montgomery product `a * b / R (mod p)`, written with the inverse
/// `r_inv` of `R` modulo `p`.
pub open spec fn mont_product(a: nat, b: nat, r_inv: nat, p: nat) -> nat {
    ((a * b) * r_inv) % p
}

/// `x` carried into the Montgomery domain: `x * R (mod p)`.
pub open spec fn to_mont(x: nat, r: nat, p: nat) -> nat {
    (x * r) % p
}

/// `x` carried out of the Montgomery domain: `x / R (mod p)`.
pub open spec fn from_mont(x: nat, r_inv: nat, p: nat) -> nat {
    (x * r_inv) % p
}

/// The quotient word cancels the lowest limb: `t + q m0` is a multiple of
/// `2^64`.
proof fn lemma_redc_word(ti: int, w: int, m0: int, q: int, hi: int, e: int)
    requires
        m0 * w + 1 == 0x1_0000_0000_0000_0000 * e,
        q + 0x1_0000_0000_0000_0000 * hi == ti * w,
    ensures
        ti + q * m0 == 0x1_0000_0000_0000_0000 * (ti * e - hi * m0),
{
    assert(q == ti * w - 0x1_0000_0000_0000_0000 * hi);
    assert((ti * w - 0x1_0000_0000_0000_0000 * hi) * m0 == ti * (m0 * w) - 0x1_0000_0000_0000_0000
        * (hi * m0)) by (nonlinear_arith);
    assert(m0 * w == 0x1_0000_0000_0000_0000 * e - 1);
    assert(ti * (0x1_0000_0000_0000_0000 * e - 1) == 0x1_0000_0000_0000_0000 * (ti * e) - ti)
        by (nonlinear_arith);
    assert(0x1_0000_0000_0000_0000 * (ti * e - hi * m0) == 0x1_0000_0000_0000_0000 * (ti * e)
        - 0x1_0000_0000_0000_0000 * (hi * m0)) by (nonlinear_arith);
}

/// After a reduction row the lowest limb of its window is zero.
proof fn lemma_redc_low_zero(
    w1: int,
    w0: int,
    carry: int,
    rn1: int,
    mv: int,
    q: int,
    ti: int,
    a: int,
    m0: int,
    b: int,
    t1i: int,
    d: int,
    f: int,
)
    requires
        w1 + carry * (0x1_0000_0000_0000_0000 * rn1) == w0 + mv * q,
        w0 == ti + 0x1_0000_0000_0000_0000 * a,
        mv == m0 + 0x1_0000_0000_0000_0000 * b,
        w1 == t1i + 0x1_0000_0000_0000_0000 * d,
        ti + q * m0 == 0x1_0000_0000_0000_0000 * f,
        0 <= t1i < 0x1_0000_0000_0000_0000,
    ensures
        t1i == 0,
{
    let c = 0x1_0000_0000_0000_0000int;
    let x = f + a + b * q - d - carry * rn1;
    assert(carry * (c * rn1) == c * (carry * rn1)) by (nonlinear_arith);
    assert((m0 + c * b) * q == q * m0 + c * (b * q)) by (nonlinear_arith);
    assert(c * x == c * f + c * a + c * (b * q) - c * d - c * (carry * rn1)) by (nonlinear_arith)
        requires
            x == f + a + b * q - d - carry * rn1,
    ;
    assert(t1i == c * x);
}

/// One reduction row with its carry folded in adds `q 2^(64 i)` times the
/// modulus to the running value.
proof fn lemma_redc_step(
    v: int,
    v0: int,
    v1: int,
    v2: int,
    c2: int,
    qacc: int,
    mv: int,
    q: int,
    ri: int,
    rn: int,
    rni: int,
    w0: int,
    w1: int,
    carry: int,
    lo: int,
    hi2: int,
    told: int,
)
    requires
        v + c2 * rni == v0 + qacc * mv,
        v1 - v == ri * (w1 - w0),
        w1 + carry * rn == w0 + mv * q,
        v2 - v1 == rni * (lo - told),
        lo + 0x1_0000_0000_0000_0000 * hi2 == told + carry + c2,
        rni == ri * rn,
    ensures
        v2 + hi2 * (0x1_0000_0000_0000_0000 * rni) == v0 + (qacc + q * ri) * mv,
{
    assert(ri * (w1 - w0) == (q * ri) * mv - carry * rni) by (nonlinear_arith)
        requires
            w1 - w0 == mv * q - carry * rn,
            rni == ri * rn,
    ;
    assert(rni * (lo - told) == carry * rni + c2 * rni - hi2 * (0x1_0000_0000_0000_0000 * rni))
        by (nonlinear_arith)
        requires
            lo - told == carry + c2 - 0x1_0000_0000_0000_0000 * hi2,
    ;
    assert((qacc + q * ri) * mv == qacc * mv + (q * ri) * mv) by (nonlinear_arith);
}

/// The running quotient stays below the weight of the rows done.
proof fn lemma_redc_quotient_bound(qacc: int, q: int, ri: int)
    by (nonlinear_arith)
    requires
        0 <= qacc < ri,
        0 <= q <= 0xffff_ffff_ffff_ffff,
    ensures
        0 <= qacc + q * ri < 0x1_0000_0000_0000_0000 * ri,
{
}

/// Runs the `n` word-by-word reduction rows over the double-length `t` in
/// place.  Afterwards the low half of `t` is zero and the high half,
/// together with the returned top bit, holds `(t + q * m) / R` for the
/// returned quotient `q < R`.
fn mont_reduce_rows(t: &mut [u64], m: &[u64], w: u64) -> (r: (u64, Ghost<nat>))
    requires
        m@.len() >= 1,
        old(t)@.len() == 2 * m@.len(),
        is_mont_word(m@[0], w),
    ensures
        final(t)@.len() == old(t)@.len(),
        forall|j: int| 0 <= j < m@.len() ==> final(t)@[j] == 0,
        r.0 <= 1,
        r.1@ < radix(m@.len()),
        radix(m@.len()) * (limbs_value(final(t)@.subrange(m@.len() as int, 2 * m@.len() as int)) + r.0
            * radix(m@.len())) == limbs_value(old(t)@) + r.1@ * limbs_value(m@),
{
    let n = m.len();
    let tlen = t.len();
    let ghost t0 = t@;
    let ghost mv = limbs_value(m@);
    let ghost mut qacc: nat = 0;
    let mut c2: u64 = 0;
    let mut i: usize = 0;
    let m0 = m[0];
    let ghost e = (m0 * w + 1) / 0x1_0000_0000_0000_0000;
    proof {
        assert(radix(0) == 1);
        lemma_radix_add(n as nat, 0);
        assert(0 * radix(n as nat) == 0) by (nonlinear_arith);
        assert(0 * mv == 0) by (nonlinear_arith);
        lemma_fundamental_div_mod((m0 * w + 1) as int, 0x1_0000_0000_0000_0000);
    }
    while i < n
        invariant
            n == m@.len(),
            n >= 1,
            tlen == t@.len(),
            tlen == 2 * n,
            t0.len() == tlen,
            i <= n,
            c2 <= 1,
            m0 == m@[0],
            mv == limbs_value(m@),
            m0 * w + 1 == 0x1_0000_0000_0000_0000 * e,
            qacc < radix(i as nat),
            forall|j: int| 0 <= j < i ==> t@[j] == 0,
            limbs_value(t@) + c2 * radix((n + i) as nat) == limbs_value(t0) + qacc * mv,
        decreases n - i,
    {
        let ghost ta = t@;
        let ti = t[i];
        let (q, qhi) = mac(ti, w, 0, 0);
        let carry = mul_add_row(t, i, m, q);
        let ghost tb = t@;
        let told = t[n + i];
        let (lo, hi2) = adc(told, carry, c2);
        t[n + i] = lo;
        proof {
            let ii = i as int;
            let nn = n as int;
            let c = 0x1_0000_0000_0000_0000int;
            let w0 = limbs_value(ta.subrange(ii, ii + nn)) as int;
            let w1 = limbs_value(tb.subrange(ii, ii + nn)) as int;
            lemma_redc_word(ti as int, w as int, m0 as int, q as int, qhi as int, e);
            lemma_value_low_limb(ta.subrange(ii, ii + nn));
            lemma_value_low_limb(tb.subrange(ii, ii + nn));
            lemma_value_low_limb(m@);
            lemma_fundamental_div_mod(w0, c);
            lemma_fundamental_div_mod(w1, c);
            lemma_fundamental_div_mod(mv as int, c);
            lemma_radix_step((n - 1) as nat);
            assert(carry * radix(n as nat) == carry * (c * radix((n - 1) as nat)));
            lemma_redc_low_zero(
                w1,
                w0,
                carry as int,
                radix((n - 1) as nat) as int,
                mv as int,
                q as int,
                ti as int,
                w0 / c,
                m0 as int,
                (mv as int) / c,
                tb[ii] as int,
                w1 / c,
                ti * e - qhi * m0,
            );
            assert(t@[ii] == 0);
            lemma_value_window(ta, tb, ii, ii + nn);
            lemma_value_update(tb, nn + ii, lo);
            lemma_radix_add(i as nat, n as nat);
            lemma_radix_step((n + i) as nat);
            lemma_radix_step(i as nat);
            lemma_redc_step(
                limbs_value(ta) as int,
                limbs_value(t0) as int,
                limbs_value(tb) as int,
                limbs_value(t@) as int,
                c2 as int,
                qacc as int,
                mv as int,
                q as int,
                radix(i as nat) as int,
                radix(n as nat) as int,
                radix((n + i) as nat) as int,
                w0,
                w1,
                carry as int,
                lo as int,
                hi2 as int,
                told as int,
            );
            lemma_redc_quotient_bound(qacc as int, q as int, radix(i as nat) as int);
            qacc = (qacc + q * radix(i as nat)) as nat;
        }
        c2 = hi2;
        i += 1;
    }
    proof {
        let nn = n as int;
        lemma_value_split(t@, nn);
        assert forall|j: int| 0 <= j < t@.subrange(0, nn).len() implies t@.subrange(0, nn)[j]
            == 0 by {
            assert(t@.subrange(0, nn)[j] == t@[j]);
        }
        lemma_value_all_zero(t@.subrange(0, nn));
        lemma_radix_add(n as nat, n as nat);
        let h = limbs_value(t@.subrange(nn, 2 * nn)) as int;
        let rn = radix(n as nat) as int;
        assert(rn * (h + c2 * rn) == rn * h + c2 * (rn * rn)) by (nonlinear_arith);
    }
    (c2, Ghost(qacc))
}

/// Brings `u = z + top * R` back below `R`, and below `m` where `u < 2 m`:
/// subtracts `m` once, and adds it back if that went below zero.
pub fn bignum_reduce_once(z: &mut [u64], top: u64, m: &[u64])
    requires
        old(z)@.len() == m@.len(),
        top <= 1,
        limbs_value(old(z)@) + top * radix(m@.len()) < radix(m@.len()) + limbs_value(m@),
    ensures
        final(z)@.len() == m@.len(),
        limbs_value(final(z)@) == if top == 1 || limbs_value(old(z)@) >= limbs_value(m@) {
            limbs_value(old(z)@) + top * radix(m@.len()) - limbs_value(m@)
        } else {
            limbs_value(old(z)@) + top * radix(m@.len())
        },
        limbs_value(old(z)@) + top * radix(m@.len()) < 2 * limbs_value(m@) ==> limbs_value(
            final(z)@,
        ) < limbs_value(m@),
{
    let n = m.len();
    let ghost za = z@;
    let ghost mv = limbs_value(m@) as int;
    let ghost r = radix(n as nat) as int;
    let ghost hv = limbs_value(z@) as int;
    let b = mul_sub_row(z, 0, m, 1);
    let ghost zb = z@;
    let need = and_not(b, top);
    let c = mul_add_row(z, 0, m, need);
    proof {
        let z1 = limbs_value(zb) as int;
        let z2 = limbs_value(z@) as int;
        lemma_radix_pos(n as nat);
        lemma_value_bound(za);
        lemma_value_bound(m@);
        assert(mv * 1 == mv);
        lemma_value_full(za);
        lemma_value_full(zb);
        lemma_value_full(z@);
        lemma_value_bound(zb);
        lemma_value_bound(z@);
        assert(z1 - b * r == hv - mv);
        assert(z2 + c * r == z1 + mv * need);
        if top == 1 {
            assert(top * r == r);
            assert(b * r == r) by {
                if b == 0 {
                    assert(b * r == 0);
                }
            }
            assert(mv * need == 0);
            assert(c * r == 0) by {
                if c != 0 {
                    assert(c * r >= r) by (nonlinear_arith)
                        requires
                            c >= 1,
                            r > 0,
                    ;
                }
            }
        } else {
            assert(top * r == 0);
            if b == 0 {
                assert(b * r == 0);
                assert(mv * need == 0);
                assert(c * r == 0) by {
                    if c != 0 {
                        assert(c * r >= r) by (nonlinear_arith)
                            requires
                                c >= 1,
                                r > 0,
                        ;
                    }
                }
            } else {
                assert(b * r == r);
                assert(mv * need == mv);
                assert(c * r == r) by {
                    assert(c >= 1) by {
                        if c == 0 {
                            assert(c * r == 0);
                        }
                    }
                    if c > 1 {
                        assert(c * r >= 2 * r) by (nonlinear_arith)
                            requires
                                c >= 2,
                                r > 0,
                        ;
                    }
                }
            }
        }
    }
}

/// The reduced value times `R` is congruent to what went in.
proof fn lemma_redc_congruent(z: int, u: int, r: int, t: int, q: int, mv: int)
    requires
        mv > 0,
        z == u || z == u - mv,
        r * u == t + q * mv,
    ensures
        (z * r) % mv == t % mv,
{
    let k: int = if z == u {
        0
    } else {
        1
    };
    assert(z * r == mv * (q - k * r) + t) by (nonlinear_arith)
        requires
            z == u - k * mv,
            r * u == t + q * mv,
    ;
    lemma_mod_multiples_vanish(q - k * r, t, mv);
}

/// A modulus with a cancelling word is odd, so it is not zero.
pub proof fn lemma_mont_modulus_pos(m: Seq<u64>, w: u64)
    requires
        m.len() >= 1,
        is_mont_word(m[0], w),
    ensures
        limbs_value(m) > 0,
{
    lemma_value_low_limb(m);
    lemma_fundamental_div_mod(limbs_value(m) as int, 0x1_0000_0000_0000_0000);
    if m[0] == 0 {
        assert(m[0] * w == 0) by (nonlinear_arith)
            requires
                m[0] == 0,
        ;
    }
}

/// Montgomery reduction: `z := t / R (mod m)` for the double-length `t`,
/// which is used up as scratch space.  The result is below `R` and
/// congruent to `t / R`; it is the fully reduced residue when
/// `t <= R * m`.
pub fn bignum_montredc(z: &mut [u64], t: &mut [u64], m: &[u64], w: u64)
    requires
        m@.len() >= 1,
        old(z)@.len() == m@.len(),
        old(t)@.len() == 2 * m@.len(),
        is_mont_word(m@[0], w),
    ensures
        final(z)@.len() == m@.len(),
        final(t)@.len() == old(t)@.len(),
        limbs_value(m@) > 0,
        (limbs_value(final(z)@) * radix(m@.len())) % limbs_value(m@) == limbs_value(old(t)@)
            % limbs_value(m@),
        limbs_value(old(t)@) <= radix(m@.len()) * limbs_value(m@) ==> limbs_value(final(z)@)
            < limbs_value(m@),
{
    let n = m.len();
    let ghost t0 = t@;
    let ghost mv = limbs_value(m@) as int;
    let ghost r = radix(n as nat) as int;
    let (top, Ghost(q)) = mont_reduce_rows(t, m, w);
    let tlen = t.len();
    let h = slice_subrange(t, n, tlen);
    bignum_copy(z, h);
    let ghost hv = limbs_value(h@) as int;
    proof {
        let tv = limbs_value(t0) as int;
        let u = hv + top * r;
        lemma_mont_modulus_pos(m@, w);
        lemma_radix_pos(n as nat);
        lemma_value_bound(t0);
        lemma_radix_add(n as nat, n as nat);
        assert(q * mv < r * mv) by (nonlinear_arith)
            requires
                0 <= q < r,
                mv > 0,
        ;
        assert(u < r + mv) by (nonlinear_arith)
            requires
                r * u == tv + q * mv,
                tv < r * r,
                q * mv < r * mv,
                r > 0,
        ;
        if tv <= r * mv {
            assert(u < 2 * mv) by (nonlinear_arith)
                requires
                    r * u == tv + q * mv,
                    tv <= r * mv,
                    q * mv < r * mv,
                    r > 0,
            ;
        }
    }
    bignum_reduce_once(z, top, m);
    proof {
        lemma_redc_congruent(
            limbs_value(z@) as int,
            hv + top * r,
            r,
            limbs_value(t0) as int,
            q as int,
            mv,
        );
    }
}

/// Montgomery product: `z := x * y / R (mod m)`, with `t` as scratch space
/// for the double-length product.  The result is fully reduced when
/// `x * y <= R * m`, which holds in particular when one factor is below `m`.
pub fn bignum_montmul(z: &mut [u64], x: &[u64], y: &[u64], m: &[u64], w: u64, t: &mut [u64])
    requires
        m@.len() >= 1,
        old(z)@.len() == m@.len(),
        x@.len() == m@.len(),
        y@.len() == m@.len(),
        old(t)@.len() == 2 * m@.len(),
        is_mont_word(m@[0], w),
    ensures
        final(z)@.len() == m@.len(),
        final(t)@.len() == old(t)@.len(),
        limbs_value(m@) > 0,
        (limbs_value(final(z)@) * radix(m@.len())) % limbs_value(m@) == (limbs_value(x@)
            * limbs_value(y@)) % limbs_value(m@),
        limbs_value(x@) * limbs_value(y@) <= radix(m@.len()) * limbs_value(m@) ==> limbs_value(
            final(z)@,
        ) < limbs_value(m@),
{
    bignum_mul(t, x, y);
    bignum_montredc(z, t, m, w);
}

/// Montgomery square: `z := x^2 / R (mod m)`, with `t` as scratch space.
/// It squares with the dedicated routine and then reduces; the result is the
/// one that `bignum_montmul` gives for `x` and `x`.
pub fn bignum_montsqr(z: &mut [u64], x: &[u64], m: &[u64], w: u64, t: &mut [u64])
    requires
        m@.len() >= 1,
        old(z)@.len() == m@.len(),
        x@.len() == m@.len(),
        old(t)@.len() == 2 * m@.len(),
        is_mont_word(m@[0], w),
    ensures
        final(z)@.len() == m@.len(),
        final(t)@.len() == old(t)@.len(),
        limbs_value(m@) > 0,
        (limbs_value(final(z)@) * radix(m@.len())) % limbs_value(m@) == (limbs_value(x@)
            * limbs_value(x@)) % limbs_value(m@),
        limbs_value(x@) * limbs_value(x@) <= radix(m@.len()) * limbs_value(m@) ==> limbs_value(
            final(z)@,
        ) < limbs_value(m@),
{
    bignum_sqr(t, x);
    bignum_montredc(z, t, m, w);
}

/// Modular sum: `z := (x + y) mod m` for `x, y < m`.
pub fn bignum_modadd(z: &mut [u64], x: &[u64], y: &[u64], m: &[u64])
    requires
        old(z)@.len() == m@.len(),
        x@.len() == m@.len(),
        y@.len() == m@.len(),
        limbs_value(x@) < limbs_value(m@),
        limbs_value(y@) < limbs_value(m@),
    ensures
        final(z)@.len() == m@.len(),
        limbs_value(final(z)@) == (limbs_value(x@) + limbs_value(y@)) % limbs_value(m@),
{
    bignum_copy(z, x);
    let ghost za = z@;
    let c = mul_add_row(z, 0, y, 1);
    let ghost r = radix(m@.len()) as int;
    proof {
        lemma_value_full(za);
        lemma_value_full(z@);
        lemma_value_bound(m@);
        lemma_value_bound(z@);
        assert(limbs_value(y@) * 1 == limbs_value(y@));
        assert(c <= 1) by {
            if c >= 2 {
                assert(c * r >= 2 * r) by (nonlinear_arith)
                    requires
                        c >= 2,
                        r > 0,
                ;
            }
        }
        assert(c * r == if c == 1 { r } else { 0 });
    }
    let ghost u = limbs_value(x@) + limbs_value(y@);
    bignum_reduce_once(z, c, m);
    proof {
        let mv = limbs_value(m@) as int;
        let zv = limbs_value(z@) as int;
        if zv == u {
            lemma_small_mod(u as nat, mv as nat);
        } else {
            vstd::arithmetic::div_mod::lemma_fundamental_div_mod_converse_mod(u as int, mv, 1, zv);
        }
    }
}

/// Modular difference: `z := (x - y) mod m` for `x, y < m`.
pub fn bignum_modsub(z: &mut [u64], x: &[u64], y: &[u64], m: &[u64])
    requires
        old(z)@.len() == m@.len(),
        x@.len() == m@.len(),
        y@.len() == m@.len(),
        limbs_value(x@) < limbs_value(m@),
        limbs_value(y@) < limbs_value(m@),
    ensures
        final(z)@.len() == m@.len(),
        limbs_value(final(z)@) == (limbs_value(x@) - limbs_value(y@)) % (limbs_value(m@) as int),
{
    bignum_copy(z, x);
    let ghost za = z@;
    let b = mul_sub_row(z, 0, y, 1);
    let ghost zb = z@;
    let c = mul_add_row(z, 0, m, b);
    proof {
        let r = radix(m@.len()) as int;
        let mv = limbs_value(m@) as int;
        let d = limbs_value(x@) - limbs_value(y@);
        let zv = limbs_value(z@) as int;
        lemma_value_full(za);
        lemma_value_full(zb);
        lemma_value_full(z@);
        lemma_value_bound(m@);
        lemma_value_bound(zb);
        lemma_value_bound(z@);
        assert(limbs_value(y@) * 1 == limbs_value(y@));
        if b == 0 {
            assert(b * r == 0);
            assert(mv * b == 0);
            assert(c * r == 0) by {
                if c != 0 {
                    assert(c * r >= r) by (nonlinear_arith)
                        requires
                            c >= 1,
                            r > 0,
                    ;
                }
            }
            lemma_small_mod(d as nat, mv as nat);
        } else {
            assert(b * r == r);
            assert(mv * b == mv);
            assert(c * r == r) by {
                assert(c >= 1) by {
                    if c == 0 {
                        assert(c * r == 0);
                    }
                }
                if c > 1 {
                    assert(c * r >= 2 * r) by (nonlinear_arith)
                        requires
                            c >= 2,
                            r > 0,
                    ;
                }
            }
            vstd::arithmetic::div_mod::lemma_fundamental_div_mod_converse_mod(d, mv, -1, zv);
        }
    }
}

/// A residue below `p` whose `R`-multiple is congruent to `t` is `t / R`:
/// the Montgomery form pins its value.
pub proof fn lemma_mont_unique(z: nat, t: nat, r: nat, r_inv: nat, p: nat)
    requires
        p > 0,
        z < p,
        (z * r) % p == t % p,
        (r * r_inv) % p == 1,
    ensures
        z == (t * r_inv) % p,
{
    let pi = p as int;
    let zi = z as int;
    let ti = t as int;
    let ri = r as int;
    let vi = r_inv as int;
    lemma_mul_mod_noop_general(ti, vi, pi);
    lemma_mul_mod_noop_general(zi * ri, vi, pi);
    assert((ti * vi) % pi == ((zi * ri) * vi) % pi);
    lemma_mul_is_associative(zi, ri, vi);
    lemma_mul_mod_noop_general(zi, ri * vi, pi);
    lemma_small_mod(z, p);
    if p == 1 {
        assert(z == 0);
    } else {
        lemma_small_mod(1, p);
        assert(((zi % pi) * ((ri * vi) % pi)) % pi == (zi * 1) % pi);
    }
}

/// Multiplying by `R^2 mod p` in the Montgomery sense multiplies by `R`.
pub proof fn lemma_mont_to_domain(x: nat, r2: nat, r: nat, r_inv: nat, p: nat)
    requires
        p > 0,
        r2 == (r * r) % p,
        (r * r_inv) % p == 1,
    ensures
        mont_product(x, r2, r_inv, p) == to_mont(x, r, p),
{
    let pi = p as int;
    let xi = x as int;
    let ri = r as int;
    let vi = r_inv as int;
    let r2i = r2 as int;
    // (r2 * r_inv) % p == r % p
    lemma_mul_mod_noop_general(ri * ri, vi, pi);
    lemma_mul_is_associative(ri, ri, vi);
    lemma_mul_mod_noop_general(ri, ri * vi, pi);
    assert((r2i * vi) % pi == (ri * 1) % pi) by {
        if p == 1 {
        } else {
            lemma_small_mod(1, p);
        }
    }
    // x * r2 * r_inv == x * (r2 * r_inv)
    lemma_mul_is_associative(xi, r2i, vi);
    lemma_mul_mod_noop_general(xi, r2i * vi, pi);
    lemma_mul_mod_noop_general(xi, ri, pi);
}

/// Leaving the Montgomery domain undoes entering it.
pub proof fn lemma_mont_round_trip(x: nat, r: nat, r_inv: nat, p: nat)
    requires
        p > 0,
        x < p,
        (r * r_inv) % p == 1,
    ensures
        from_mont(to_mont(x, r, p), r_inv, p) == x,
{
    let pi = p as int;
    let xi = x as int;
    let ri = r as int;
    let vi = r_inv as int;
    lemma_mul_mod_noop_general(xi * ri, vi, pi);
    lemma_mul_is_associative(xi, ri, vi);
    lemma_mul_mod_noop_general(xi, ri * vi, pi);
    lemma_small_mod(x, p);
    if p > 1 {
        lemma_small_mod(1, p);
    }
}

/// A product stays within the range that Montgomery reduction brings fully
/// below `p` as soon as one factor is below `p`: the other may be any value
/// below `R`.
pub proof fn lemma_mont_factor_bound(x: nat, y: nat, r: nat, p: nat)
    requires
        (x < p && y < r) || (x < r && y < p),
    ensures
        x * y <= r * p,
{
    if x < p && y < r {
        assert(x * y <= r * p) by (nonlinear_arith)
            requires
                x < p,
                y < r,
        ;
    } else {
        assert(x * y <= r * p) by (nonlinear_arith)
            requires
                x < r,
                y < p,
        ;
    }
}

/// Two limb vectors of one length that both hold the Montgomery product of
/// the same factors are the same, limb for limb: whatever computes the
/// product, by whatever method, returns these limbs.
pub proof fn lemma_mont_product_exact(
    z1: Seq<u64>,
    z2: Seq<u64>,
    a: nat,
    b: nat,
    r_inv: nat,
    p: nat,
)
    requires
        z1.len() == z2.len(),
        limbs_value(z1) == mont_product(a, b, r_inv, p),
        limbs_value(z2) == mont_product(a, b, r_inv, p),
    ensures
        z1 == z2,
{
    crate::limbs::lemma_value_injective(z1, z2);
}

} // verus!
