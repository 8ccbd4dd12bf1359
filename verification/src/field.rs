//! A prime field on `N` limbs, with elements held in the Montgomery domain
//! for `R = 2^(64 N)`.
//!
//! An element is an array of `N` limbs whose value is below `p`; it stands
//! for the field element `value * R^-1 mod p`.  The operations take the
//! double-length scratch space that a product needs from the caller, so that
//! every buffer stays on the caller's stack.

use vstd::prelude::*;
use vstd::arithmetic::power::{lemma_pow0, lemma_pow1, lemma_pow_adds, pow};
use vstd::arithmetic::power2::{lemma2_to64, lemma_pow2_unfold, pow2};
use crate::bignum::{bignum_copy, bignum_is_zero, mul_sub_row};
use crate::jacobian::{
    lemma_rep_add, lemma_rep_input, lemma_rep_mul, lemma_rep_output, lemma_rep_sub, mont_rep,
};
use crate::limbs::{
    lemma_radix_pos, lemma_value_bound, lemma_value_full, lemma_value_prepend, limbs_value, radix,
};
use crate::montgomery::{
    bignum_modadd, bignum_modsub, bignum_montmul, bignum_montsqr, from_mont, is_mont_word,
    lemma_mont_factor_bound, lemma_mont_to_domain, lemma_mont_unique, mont_product, to_mont,
};

verus! {

/// Constant-time comparison: 1 when `x < y` and 0 when it is not.
pub fn limbs_lt<const N: usize>(x: &[u64; N], y: &[u64; N]) -> (r: u64)
    ensures
        r == if limbs_value(x@) < limbs_value(y@) { 1u64 } else { 0u64 },
{
    let mut d = [0u64;N];
    bignum_copy(&mut d, x);
    let ghost da = d@;
    let b = mul_sub_row(&mut d, 0, y, 1);
    proof {
        lemma_value_full(da);
        lemma_value_full(d@);
        lemma_value_bound(d@);
        lemma_value_bound(x@);
        lemma_value_bound(y@);
        lemma_radix_pos(N as nat);
        let r = radix(N as nat) as int;
        assert(limbs_value(y@) * 1 == limbs_value(y@));
        assert(b * r == if b == 1 { r } else { 0 });
    }
    b
}

/// The parameters of a prime field on `N` limbs.
pub struct Field<const N: usize> {
    /// The limbs of the modulus `p`.
    pub m: [u64; N],
    /// The limbs of `R^2 mod p`.
    pub r2: [u64; N],
    /// The word `w` with `p * w == -1 (mod 2^64)`.
    pub w: u64,
    /// The modulus as a number.
    pub p: Ghost<nat>,
    /// The inverse of `R` modulo `p` as a number.
    pub r_inv: Ghost<nat>,
}

impl<const N: usize> Field<N> {
    /// The parameters belong together.
    pub open spec fn wf(&self) -> bool {
        &&& N >= 1
        &&& limbs_value(self.m@) == self.p@
        &&& is_mont_word(self.m@[0], self.w)
        &&& limbs_value(self.r2@) == (radix(N as nat) * radix(N as nat)) % self.p@
        &&& (radix(N as nat) * self.r_inv@) % self.p@ == 1
        &&& self.p@ > 1
    }

    /// The limbs `v` are a fully reduced residue.
    pub open spec fn red(&self, v: Seq<u64>) -> bool {
        limbs_value(v) < self.p@
    }

    /// The field element that the limbs `v` stand for.
    pub open spec fn value(&self, v: Seq<u64>) -> nat {
        from_mont(limbs_value(v), self.r_inv@, self.p@)
    }

    /// The limbs `v` stand for the integer `a`, whether or not they are
    /// fully reduced: `v == a * R (mod p)`.
    pub open spec fn rep(&self, v: Seq<u64>, a: int) -> bool {
        mont_rep(limbs_value(v), a, radix(N as nat), self.p@)
    }

    /// Limbs stand for the field element that they decode to.
    pub proof fn lemma_rep_value(&self, v: Seq<u64>)
        requires
            self.wf(),
        ensures
            self.rep(v, self.value(v) as int),
    {
        lemma_rep_input(limbs_value(v), radix(N as nat), self.r_inv@, self.p@);
    }

    /// Reduced limbs that stand for `a` decode to `a mod p`.
    pub proof fn lemma_value_rep(&self, v: Seq<u64>, a: int)
        requires
            self.wf(),
            self.rep(v, a),
        ensures
            self.value(v) as int == a % (self.p@ as int),
    {
        lemma_rep_output(limbs_value(v), a, radix(N as nat), self.r_inv@, self.p@);
    }

    /// Montgomery product: `z := x * y / R (mod p)`, for `x * y <= R * p`,
    /// which holds whenever one factor is fully reduced.
    pub fn mul(&self, z: &mut [u64; N], x: &[u64; N], y: &[u64; N], t: &mut [u64])
        requires
            self.wf(),
            old(t)@.len() == 2 * N,
            limbs_value(x@) * limbs_value(y@) <= radix(N as nat) * self.p@,
        ensures
            final(t)@.len() == 2 * N,
            self.red(final(z)@),
            limbs_value(final(z)@) == mont_product(
                limbs_value(x@),
                limbs_value(y@),
                self.r_inv@,
                self.p@,
            ),
    {
        bignum_montmul(z, x, y, &self.m, self.w, t);
        proof {
            lemma_mont_unique(
                limbs_value(z@),
                limbs_value(x@) * limbs_value(y@),
                radix(N as nat),
                self.r_inv@,
                self.p@,
            );
        }
    }

    /// Montgomery square: `z := x^2 / R (mod p)`, for `x^2 <= R * p`.  The
    /// result is that of `mul` on `x` and `x`.
    pub fn sqr(&self, z: &mut [u64; N], x: &[u64; N], t: &mut [u64])
        requires
            self.wf(),
            old(t)@.len() == 2 * N,
            limbs_value(x@) * limbs_value(x@) <= radix(N as nat) * self.p@,
        ensures
            final(t)@.len() == 2 * N,
            self.red(final(z)@),
            limbs_value(final(z)@) == mont_product(
                limbs_value(x@),
                limbs_value(x@),
                self.r_inv@,
                self.p@,
            ),
    {
        bignum_montsqr(z, x, &self.m, self.w, t);
        proof {
            lemma_mont_unique(
                limbs_value(z@),
                limbs_value(x@) * limbs_value(x@),
                radix(N as nat),
                self.r_inv@,
                self.p@,
            );
        }
    }

    /// Almost-Montgomery square: for any `x`, a value below `R` that is
    /// congruent to the Montgomery square of `x`, though not always below
    /// `p`.
    pub fn sqr_almost(&self, z: &mut [u64; N], x: &[u64; N], t: &mut [u64])
        requires
            self.wf(),
            old(t)@.len() == 2 * N,
        ensures
            final(t)@.len() == 2 * N,
            limbs_value(final(z)@) % self.p@ == mont_product(
                limbs_value(x@),
                limbs_value(x@),
                self.r_inv@,
                self.p@,
            ),
    {
        bignum_montsqr(z, x, &self.m, self.w, t);
        proof {
            let p = self.p@;
            vstd::arithmetic::div_mod::lemma_mul_mod_noop_left(
                limbs_value(z@) as int,
                radix(N as nat) as int,
                p as int,
            );
            lemma_mont_unique(
                limbs_value(z@) % p,
                limbs_value(x@) * limbs_value(x@),
                radix(N as nat),
                self.r_inv@,
                p,
            );
        }
    }

    /// Field sum: `z := (x + y) mod p` for reduced `x` and `y`.
    pub fn add(&self, z: &mut [u64; N], x: &[u64; N], y: &[u64; N])
        requires
            self.wf(),
            self.red(x@),
            self.red(y@),
        ensures
            self.red(final(z)@),
            limbs_value(final(z)@) == (limbs_value(x@) + limbs_value(y@)) % self.p@,
    {
        bignum_modadd(z, x, y, &self.m);
    }

    /// Field difference: `z := (x - y) mod p` for reduced `x` and `y`.
    pub fn sub(&self, z: &mut [u64; N], x: &[u64; N], y: &[u64; N])
        requires
            self.wf(),
            self.red(x@),
            self.red(y@),
        ensures
            self.red(final(z)@),
            limbs_value(final(z)@) == (limbs_value(x@) - limbs_value(y@)) % (self.p@ as int),
    {
        bignum_modsub(z, x, y, &self.m);
    }

    /// Into the Montgomery domain: `z := x * R (mod p)`, for any `x`.
    pub fn to_mont(&self, z: &mut [u64; N], x: &[u64; N], t: &mut [u64])
        requires
            self.wf(),
            old(t)@.len() == 2 * N,
        ensures
            final(t)@.len() == 2 * N,
            self.red(final(z)@),
            limbs_value(final(z)@) == to_mont(limbs_value(x@), radix(N as nat), self.p@),
    {
        proof {
            lemma_value_bound(x@);
            lemma_mont_factor_bound(
                limbs_value(x@),
                limbs_value(self.r2@),
                radix(N as nat),
                self.p@,
            );
            lemma_mont_to_domain(
                limbs_value(x@),
                limbs_value(self.r2@),
                radix(N as nat),
                self.r_inv@,
                self.p@,
            );
        }
        self.mul(z, x, &self.r2, t);
    }

    /// Out of the Montgomery domain: `z := x / R (mod p)`, for any `x`.
    pub fn from_mont(&self, z: &mut [u64; N], x: &[u64; N], t: &mut [u64])
        requires
            self.wf(),
            old(t)@.len() == 2 * N,
        ensures
            final(t)@.len() == 2 * N,
            self.red(final(z)@),
            limbs_value(final(z)@) == self.value(x@),
    {
        let mut one = [0u64;N];
        one[0] = 1;
        proof {
            crate::limbs::lemma_value_split(one@, 1);
            crate::limbs::lemma_window_single(one@, 0);
            let tail = one@.subrange(1, N as int);
            assert(crate::limbs::all_zero(tail)) by {
                assert forall|j: int| 0 <= j < tail.len() implies tail[j] == 0 by {
                    assert(tail[j] == one@[j + 1]);
                }
            }
            crate::limbs::lemma_value_all_zero(tail);
            assert(radix(1) * 0 == 0);
            assert(limbs_value(one@) == 1);
            lemma_value_bound(x@);
            lemma_mont_factor_bound(limbs_value(x@), 1, radix(N as nat), self.p@);
            assert(limbs_value(x@) * 1 == limbs_value(x@));
        }
        self.mul(z, x, &one, t);
    }

    /// 1 when the element is zero and 0 when it is not.
    pub fn is_zero(&self, x: &[u64; N]) -> (r: u64)
        requires
            self.wf(),
            self.red(x@),
        ensures
            r == if self.value(x@) == 0 { 1u64 } else { 0u64 },
    {
        proof {
            crate::jacobian::lemma_from_mont_zero(
                limbs_value(x@),
                radix(N as nat),
                self.r_inv@,
                self.p@,
            );
        }
        bignum_is_zero(x)
    }

    /// 1 when `x` is below `p`, that is a valid residue, and 0 when it is
    /// not.
    pub fn is_reduced(&self, x: &[u64; N]) -> (r: u64)
        requires
            self.wf(),
        ensures
            r == if self.red(x@) { 1u64 } else { 0u64 },
    {
        limbs_lt(x, &self.m)
    }

    /// `mul`, with the integers that the factors stand for carried along.
    pub(crate) fn mul_t(
        &self,
        z: &mut [u64; N],
        x: &[u64; N],
        y: &[u64; N],
        t: &mut [u64],
        Ghost(a): Ghost<int>,
        Ghost(b): Ghost<int>,
    )
        requires
            self.wf(),
            old(t)@.len() == 2 * N,
            self.rep(x@, a),
            self.rep(y@, b),
            self.red(x@) || self.red(y@),
        ensures
            final(t)@.len() == 2 * N,
            self.rep(final(z)@, a * b),
            self.red(final(z)@),
    {
        proof {
            lemma_value_bound(x@);
            lemma_value_bound(y@);
            lemma_mont_factor_bound(limbs_value(x@), limbs_value(y@), radix(N as nat), self.p@);
        }
        self.mul(z, x, y, t);
        proof {
            vstd::arithmetic::div_mod::lemma_small_mod(limbs_value(z@), self.p@);
            lemma_rep_mul(
                limbs_value(x@),
                a,
                limbs_value(y@),
                b,
                limbs_value(z@),
                radix(N as nat),
                self.r_inv@,
                self.p@,
            );
        }
    }

    /// `sqr`, with the integer that the operand stands for carried along.
    pub(crate) fn sqr_t(&self, z: &mut [u64; N], x: &[u64; N], t: &mut [u64], Ghost(a): Ghost<int>)
        requires
            self.wf(),
            old(t)@.len() == 2 * N,
            self.rep(x@, a),
            self.red(x@),
        ensures
            final(t)@.len() == 2 * N,
            self.rep(final(z)@, a * a),
            self.red(final(z)@),
    {
        proof {
            lemma_value_bound(x@);
            lemma_mont_factor_bound(limbs_value(x@), limbs_value(x@), radix(N as nat), self.p@);
        }
        self.sqr(z, x, t);
        proof {
            vstd::arithmetic::div_mod::lemma_small_mod(limbs_value(z@), self.p@);
            lemma_rep_mul(
                limbs_value(x@),
                a,
                limbs_value(x@),
                a,
                limbs_value(z@),
                radix(N as nat),
                self.r_inv@,
                self.p@,
            );
        }
    }

    /// `sqr_almost`, with the integer that the operand stands for carried
    /// along.
    pub(crate) fn sqr_almost_t(
        &self,
        z: &mut [u64; N],
        x: &[u64; N],
        t: &mut [u64],
        Ghost(a): Ghost<int>,
    )
        requires
            self.wf(),
            old(t)@.len() == 2 * N,
            self.rep(x@, a),
        ensures
            final(t)@.len() == 2 * N,
            self.rep(final(z)@, a * a),
    {
        self.sqr_almost(z, x, t);
        proof {
            lemma_rep_mul(
                limbs_value(x@),
                a,
                limbs_value(x@),
                a,
                limbs_value(z@),
                radix(N as nat),
                self.r_inv@,
                self.p@,
            );
        }
    }

    /// `add`, with the integers that the terms stand for carried along.
    pub(crate) fn add_t(
        &self,
        z: &mut [u64; N],
        x: &[u64; N],
        y: &[u64; N],
        Ghost(a): Ghost<int>,
        Ghost(b): Ghost<int>,
    )
        requires
            self.wf(),
            self.rep(x@, a),
            self.rep(y@, b),
            self.red(x@),
            self.red(y@),
        ensures
            self.rep(final(z)@, a + b),
            self.red(final(z)@),
    {
        self.add(z, x, y);
        proof {
            lemma_rep_add(
                limbs_value(x@),
                a,
                limbs_value(y@),
                b,
                limbs_value(z@),
                radix(N as nat),
                self.p@,
            );
        }
    }

    /// `sub`, with the integers that the terms stand for carried along.
    pub(crate) fn sub_t(
        &self,
        z: &mut [u64; N],
        x: &[u64; N],
        y: &[u64; N],
        Ghost(a): Ghost<int>,
        Ghost(b): Ghost<int>,
    )
        requires
            self.wf(),
            self.rep(x@, a),
            self.rep(y@, b),
            self.red(x@),
            self.red(y@),
        ensures
            self.rep(final(z)@, a - b),
            self.red(final(z)@),
    {
        self.sub(z, x, y);
        proof {
            lemma_rep_sub(
                limbs_value(x@),
                a,
                limbs_value(y@),
                b,
                limbs_value(z@),
                radix(N as nat),
                self.p@,
            );
        }
    }

    /// The element 1, that is `R mod p` in the Montgomery domain.
    pub fn one(&self, t: &mut [u64]) -> (z: [u64; N])
        requires
            self.wf(),
            old(t)@.len() == 2 * N,
        ensures
            final(t)@.len() == 2 * N,
            self.red(z@),
            self.rep(z@, 1),
            self.value(z@) == 1,
    {
        let mut u = [0u64;N];
        u[0] = 1;
        proof {
            crate::limbs::lemma_value_split(u@, 1);
            crate::limbs::lemma_window_single(u@, 0);
            let tail = u@.subrange(1, N as int);
            assert(crate::limbs::all_zero(tail)) by {
                assert forall|j: int| 0 <= j < tail.len() implies tail[j] == 0 by {
                    assert(tail[j] == u@[j + 1]);
                }
            }
            crate::limbs::lemma_value_all_zero(tail);
            assert(radix(1) * 0 == 0);
            assert(limbs_value(u@) == 1);
        }
        let mut z = [0u64;N];
        self.to_mont(&mut z, &u, t);
        proof {
            let r = radix(N as nat);
            assert(1 * r == r);
            assert(1 * (r as int) == r as int);
            vstd::arithmetic::div_mod::lemma_small_mod(limbs_value(z@), self.p@);
            vstd::arithmetic::div_mod::lemma_mod_twice(r as int, self.p@ as int);
            self.lemma_value_rep(z@, 1);
            vstd::arithmetic::div_mod::lemma_small_mod(1, self.p@);
        }
        z
    }

    /// Power with a public exponent: `z := a^e`, by square-and-multiply over
    /// the bits of `e`, most significant first.  The sequence of operations
    /// depends on `e` and on nothing else.
    pub fn pow(&self, a: &[u64; N], e: &[u64; N], t: &mut [u64]) -> (z: [u64; N])
        requires
            self.wf(),
            old(t)@.len() == 2 * N,
            self.red(a@),
        ensures
            final(t)@.len() == 2 * N,
            self.red(z@),
            self.value(z@) as int == pow(self.value(a@) as int, limbs_value(e@)) % (self.p@ as int),
    {
        let ghost av = self.value(a@) as int;
        let mut acc = self.one(t);
        let ghost mut prefix: nat = 0;
        let mut i: usize = N;
        proof {
            self.lemma_rep_value(a@);
            lemma_pow0(av);
            assert(limbs_value(e@.subrange(N as int, N as int)) == 0);
        }
        while i > 0
            invariant
                self.wf(),
                t@.len() == 2 * N,
                self.red(a@),
                self.rep(a@, av),
                i <= N,
                self.red(acc@),
                prefix == limbs_value(e@.subrange(i as int, N as int)),
                self.rep(acc@, pow(av, prefix)),
            decreases i,
        {
            i -= 1;
            let orig = e[i];
            let mut w = orig;
            let ghost hv = prefix;
            let ghost mut consumed: nat = 0;
            let mut j: usize = 0;
            proof {
                lemma2_to64();
                assert(hv * 1 == hv);
                assert(orig * 1 == orig);
            }
            while j < 64
                invariant
                    self.wf(),
                    t@.len() == 2 * N,
                    self.red(a@),
                    self.rep(a@, av),
                    i < N,
                    j <= 64,
                    self.red(acc@),
                    orig * pow2(j as nat) == consumed * 0x1_0000_0000_0000_0000 + w,
                    prefix == hv * pow2(j as nat) + consumed,
                    self.rep(acc@, pow(av, prefix)),
                decreases 64 - j,
            {
                let bit = w / 0x8000_0000_0000_0000;
                w = (w % 0x8000_0000_0000_0000) * 2;
                let mut sq = [0u64;N];
                self.sqr_t(&mut sq, &acc, t, Ghost(pow(av, prefix)));
                proof {
                    lemma_pow_adds(av, prefix, prefix);
                }
                if bit == 1 {
                    self.mul_t(&mut acc, &sq, a, t, Ghost(pow(av, prefix + prefix)), Ghost(av));
                    proof {
                        lemma_pow_adds(av, prefix + prefix, 1);
                        lemma_pow1(av);
                    }
                } else {
                    acc = sq;
                }
                proof {
                    let pj = pow2(j as nat) as int;
                    lemma_pow2_unfold((j + 1) as nat);
                    assert(pow2((j + 1) as nat) == 2 * pj);
                    assert(orig * (2 * pj) == 2 * (orig * pj)) by (nonlinear_arith);
                    assert(hv * (2 * pj) == 2 * (hv * pj)) by (nonlinear_arith);
                    assert((2 * consumed + bit) * 0x1_0000_0000_0000_0000 == 2 * (consumed
                        * 0x1_0000_0000_0000_0000) + bit * 0x1_0000_0000_0000_0000)
                        by (nonlinear_arith);
                    assert(bit * 0x1_0000_0000_0000_0000 == if bit == 1 {
                        0x1_0000_0000_0000_0000int
                    } else {
                        0int
                    });
                    consumed = 2 * consumed + bit as nat;
                    prefix = 2 * prefix + bit as nat;
                }
                j += 1;
            }
            proof {
                assert(pow2(64) == 0x1_0000_0000_0000_0000);
                assert(orig * pow2(64) == 0x1_0000_0000_0000_0000 * orig) by (nonlinear_arith)
                    requires
                        pow2(64) == 0x1_0000_0000_0000_0000,
                ;
                assert(consumed * 0x1_0000_0000_0000_0000 == 0x1_0000_0000_0000_0000 * consumed)
                    by (nonlinear_arith);
                assert(consumed == orig);
                assert(hv * pow2(64) == 0x1_0000_0000_0000_0000 * hv) by (nonlinear_arith)
                    requires
                        pow2(64) == 0x1_0000_0000_0000_0000,
                ;
                lemma_value_prepend(e@, i as int);
            }
        }
        proof {
            lemma_value_full(e@);
            self.lemma_value_rep(acc@, pow(av, prefix));
        }
        acc
    }

    /// The exponent `p - 2`.
    pub fn inverse_exponent(&self) -> (e: [u64; N])
        requires
            self.wf(),
        ensures
            limbs_value(e@) == self.p@ - 2,
    {
        let mut two = [0u64;N];
        two[0] = 2;
        let mut e = [0u64;N];
        bignum_copy(&mut e, &self.m);
        let ghost ea = e@;
        let b = mul_sub_row(&mut e, 0, &two, 1);
        proof {
            crate::limbs::lemma_value_split(two@, 1);
            crate::limbs::lemma_window_single(two@, 0);
            let tail = two@.subrange(1, N as int);
            assert(crate::limbs::all_zero(tail)) by {
                assert forall|j: int| 0 <= j < tail.len() implies tail[j] == 0 by {
                    assert(tail[j] == two@[j + 1]);
                }
            }
            crate::limbs::lemma_value_all_zero(tail);
            assert(radix(1) * 0 == 0);
            assert(limbs_value(two@) == 2);
            assert(2 * 1 == 2);
            lemma_value_full(ea);
            lemma_value_full(e@);
            lemma_value_bound(e@);
            lemma_value_bound(self.m@);
            lemma_radix_pos(N as nat);
            let r = radix(N as nat) as int;
            assert(b * r == if b == 0 { 0 } else { b * r });
            // p is odd and above 1, so p >= 3 and nothing is borrowed
            crate::limbs::lemma_value_low_limb(self.m@);
            let m0 = self.m@[0];
            assert(m0 % 2 == 1) by {
                let w = self.w;
                let c = 0x1_0000_0000_0000_0000int;
                vstd::arithmetic::div_mod::lemma_fundamental_div_mod(m0 * w + 1, c);
                let q = (m0 * w + 1) / c;
                if m0 % 2 == 0 {
                    let h = (m0 / 2) as int;
                    assert(m0 == 2 * h);
                    assert(m0 * w == 2 * (h * w)) by (nonlinear_arith)
                        requires
                            m0 == 2 * h,
                    ;
                    assert(c * q == 2 * (0x8000_0000_0000_0000 * q)) by (nonlinear_arith)
                        requires
                            c == 0x1_0000_0000_0000_0000,
                    ;
                    assert(false);
                }
            }
            vstd::arithmetic::div_mod::lemma_fundamental_div_mod(
                self.p@ as int,
                0x1_0000_0000_0000_0000,
            );
            assert(self.p@ >= 3) by {
                if self.p@ == 2 {
                    assert(m0 == 2);
                }
            }
            if b != 0 {
                assert(b * r >= r) by (nonlinear_arith)
                    requires
                        b >= 1,
                        r > 0,
                ;
            }
        }
        e
    }

    /// Inversion by Fermat's exponent: `z := a^(p - 2)`.  For `a = 0` the
    /// result is 0.
    pub fn inverse(&self, a: &[u64; N], t: &mut [u64]) -> (z: [u64; N])
        requires
            self.wf(),
            old(t)@.len() == 2 * N,
            self.red(a@),
        ensures
            final(t)@.len() == 2 * N,
            self.red(z@),
            self.value(z@) as int == pow(self.value(a@) as int, (self.p@ - 2) as nat) % (
            self.p@ as int),
    {
        let e = self.inverse_exponent();
        self.pow(a, &e, t)
    }
}

} // verus!
