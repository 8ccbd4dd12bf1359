//! ECDSA on a short-Weierstrass curve: signing with a nonce that the caller
//! supplies, and verification.  The message enters as its hash, already
//! turned into an integer; hashing itself is the caller's business.

use vstd::prelude::*;
use crate::error::Error;
use crate::field::{limbs_lt};
use crate::jacobian::{
    affine_x, inverse_power, jacobian_add, lemma_rep_congruent, scalar_mul_spec, JacobianPoint,
};
use crate::limbs::{and_not, limbs_value, radix};
use crate::encoding::{be_value, limbs_from_be_bytes, limbs_to_be_bytes};
use crate::weierstrass::{decode_point_spec, Curve, Point};
use vstd::slice::slice_subrange;

verus! {

/// The first half of a signature made with the nonce `k`: the affine `x` of
/// `k G`, taken modulo the group order `n`.
pub open spec fn ecdsa_r(k: nat, nbits: nat, g: JacobianPoint, p: nat, n: nat) -> nat {
    affine_x(scalar_mul_spec(k, nbits, g, p), p) % n
}

/// The second half of a signature: `k^-1 (z + r d) mod n`, for the private
/// key `d`, the hash `z` and the first half `r`, with the inverse taken as
/// Fermat's power.
pub open spec fn ecdsa_s(d: nat, z: nat, k: nat, r: nat, n: nat) -> nat {
    ((inverse_power(k, n) * (z + r * d)) % (n as int)) as nat
}

/// The point that verification looks at: `u1 G + u2 Q` with
/// `u1 = z s^-1 mod n` and `u2 = r s^-1 mod n`.
pub open spec fn ecdsa_check_point(
    q: JacobianPoint,
    z: nat,
    r: nat,
    s: nat,
    nbits: nat,
    g: JacobianPoint,
    p: nat,
    n: nat,
) -> JacobianPoint {
    let w = inverse_power(s, n);
    let u1 = ((z * w) % (n as int)) as nat;
    let u2 = ((r * w) % (n as int)) as nat;
    jacobian_add(scalar_mul_spec(u1, nbits, g, p), scalar_mul_spec(u2, nbits, q, p), p)
}

/// The signature `(r, s)` fits the hash `z` and the public key `q`: both
/// halves are in the range `0 < . < n`, the check point is finite, and its
/// affine `x` taken modulo `n` is `r`.
pub open spec fn ecdsa_valid(
    q: JacobianPoint,
    z: nat,
    r: nat,
    s: nat,
    nbits: nat,
    g: JacobianPoint,
    p: nat,
    n: nat,
) -> bool {
    &&& 0 < r < n
    &&& 0 < s < n
    &&& !ecdsa_check_point(q, z, r, s, nbits, g, p, n).is_identity()
    &&& affine_x(ecdsa_check_point(q, z, r, s, nbits, g, p, n), p) % n == r
}

/// What verification on encoded operands gives.  The checks come in this
/// order: the public key as `decode_point_spec` does, the length `8 n` of
/// the digest, the length `16 n` of the signature, and whether the
/// signature, `r` then `s`, fits.
pub open spec fn ecdsa_verify_bytes_spec(
    public: Seq<u8>,
    digest: Seq<u8>,
    signature: Seq<u8>,
    n: nat,
    order: nat,
    b: nat,
    g: JacobianPoint,
    p: nat,
) -> Result<(), Error> {
    match decode_point_spec(public, n, b, p) {
        Err(e) => Err(e),
        Ok((x, y)) => {
            if digest.len() != 8 * n || signature.len() != 16 * n {
                Err(Error::WrongLength)
            } else if !ecdsa_valid(
                JacobianPoint { x: x, y: y, z: 1 },
                be_value(digest),
                be_value(signature.subrange(0, 8 * n as int)),
                be_value(signature.subrange(8 * n as int, 16 * n as int)),
                64 * n,
                g,
                p,
                order,
            ) {
                Err(Error::BadSignature)
            } else {
                Ok(())
            }
        },
    }
}

/// What signing on encoded operands gives: the two halves of the signature,
/// or the reason why there is none.  The checks come in this order: the
/// private key (length `8 n`, then range `0 < d < order`), the length of
/// the digest, the nonce like the private key, the length `16 n` of the
/// output buffer, and whether the nonce gives a signature without a zero
/// half.
pub open spec fn ecdsa_sign_bytes_spec(
    private: Seq<u8>,
    digest: Seq<u8>,
    nonce: Seq<u8>,
    out_len: nat,
    n: nat,
    order: nat,
    g: JacobianPoint,
    p: nat,
) -> Result<(nat, nat), Error> {
    if private.len() != 8 * n {
        Err(Error::WrongLength)
    } else if !(0 < be_value(private) < order) {
        Err(Error::OutOfRange)
    } else if digest.len() != 8 * n || nonce.len() != 8 * n {
        Err(Error::WrongLength)
    } else if !(0 < be_value(nonce) < order) {
        Err(Error::OutOfRange)
    } else if out_len != 16 * n {
        Err(Error::WrongLength)
    } else {
        let r = ecdsa_r(be_value(nonce), 64 * n, g, p, order);
        let s = ecdsa_s(be_value(private), be_value(digest), be_value(nonce), r, order);
        if r == 0 || s == 0 {
            Err(Error::OutOfRange)
        } else {
            Ok((r, s))
        }
    }
}

impl<const N: usize> Curve<N> {
    /// The base point as a stored point.
    pub fn base_point(&self, t: &mut [u64]) -> (g: Point<N>)
        requires
            self.wf(),
            old(t)@.len() == 2 * N,
        ensures
            final(t)@.len() == 2 * N,
            g.reduced(&self.field),
            g.model(&self.field) == self.generator(),
    {
        let one = self.field.one(t);
        Point { x: self.gx, y: self.gy, z: one }
    }

    /// A number of `N` limbs taken modulo the group order.
    pub fn reduce_scalar(&self, x: &[u64; N], t: &mut [u64]) -> (r: [u64; N])
        requires
            self.wf(),
            old(t)@.len() == 2 * N,
        ensures
            final(t)@.len() == 2 * N,
            limbs_value(r@) == limbs_value(x@) % limbs_value(self.order@),
    {
        let sf = &self.scalar_field;
        let mut m = [0u64;N];
        sf.to_mont(&mut m, x, t);
        proof {
            vstd::arithmetic::div_mod::lemma_small_mod(limbs_value(m@), sf.p@);
            assert(sf.rep(m@, limbs_value(x@) as int));
            sf.lemma_value_rep(m@, limbs_value(x@) as int);
        }
        let mut r = [0u64;N];
        sf.from_mont(&mut r, &m, t);
        r
    }

    /// Signs the hash `z` with the private key `d` and the nonce `k`, both
    /// in the range `0 < . < n`.  The nonce must be fresh, secret and
    /// uniformly random for every signature: that is the caller's duty.
    ///
    /// A nonce for which a half of the signature would be zero cannot be
    /// used; it is `OutOfRange`, and the caller draws another.
    pub fn ecdsa_sign(&self, d: &[u64; N], z: &[u64; N], k: &[u64; N], t: &mut [u64]) -> (res:
        Result<([u64; N], [u64; N]), Error>)
        requires
            self.wf(),
            old(t)@.len() == 2 * N,
            0 < limbs_value(d@) < limbs_value(self.order@),
            0 < limbs_value(k@) < limbs_value(self.order@),
        ensures
            final(t)@.len() == 2 * N,
            ({
                let n = limbs_value(self.order@);
                let r = ecdsa_r(
                    limbs_value(k@),
                    (64 * N) as nat,
                    self.generator(),
                    self.field.p@,
                    n,
                );
                let s = ecdsa_s(limbs_value(d@), limbs_value(z@), limbs_value(k@), r, n);
                match res {
                    Ok(sig) => r != 0 && s != 0 && limbs_value(sig.0@) == r && limbs_value(sig.1@)
                        == s,
                    Err(e) => e == Error::OutOfRange && (r == 0 || s == 0),
                }
            }),
    {
        let sf = &self.scalar_field;
        let ghost n = limbs_value(self.order@);
        let ghost kv = limbs_value(k@);
        let ghost pw = inverse_power(kv, n);
        let g = self.base_point(t);
        let kg = self.field.scalar_mul(k, &g, t);
        let (x, _y) = self.field.to_affine(&kg, t);
        let r = self.reduce_scalar(&x, t);
        if crate::bignum::bignum_is_zero(&r) == 1 {
            return Err(Error::OutOfRange);
        }
        let ghost rv = limbs_value(r@);
        let mut rm = [0u64;N];
        sf.to_mont(&mut rm, &r, t);
        let mut dm = [0u64;N];
        sf.to_mont(&mut dm, d, t);
        let mut zm = [0u64;N];
        sf.to_mont(&mut zm, z, t);
        let mut km = [0u64;N];
        sf.to_mont(&mut km, k, t);
        proof {
            vstd::arithmetic::div_mod::lemma_small_mod(limbs_value(rm@), n);
            vstd::arithmetic::div_mod::lemma_small_mod(limbs_value(dm@), n);
            vstd::arithmetic::div_mod::lemma_small_mod(limbs_value(zm@), n);
            vstd::arithmetic::div_mod::lemma_small_mod(limbs_value(km@), n);
            assert(sf.rep(rm@, rv as int));
            assert(sf.rep(dm@, limbs_value(d@) as int));
            assert(sf.rep(zm@, limbs_value(z@) as int));
            assert(sf.rep(km@, kv as int));
            sf.lemma_value_rep(km@, kv as int);
            vstd::arithmetic::div_mod::lemma_small_mod(kv, n);
        }
        let ki = sf.inverse(&km, t);
        proof {
            sf.lemma_rep_value(ki@);
            lemma_rep_congruent(limbs_value(ki@), pw, radix(N as nat), n);
        }
        let mut rd = [0u64;N];
        sf.mul_t(&mut rd, &rm, &dm, t, Ghost(rv as int), Ghost(limbs_value(d@) as int));
        let mut sum = [0u64;N];
        sf.add_t(
            &mut sum,
            &zm,
            &rd,
            Ghost(limbs_value(z@) as int),
            Ghost(rv as int * limbs_value(d@) as int),
        );
        let mut sm = [0u64;N];
        sf.mul_t(
            &mut sm,
            &ki,
            &sum,
            t,
            Ghost(pw),
            Ghost(limbs_value(z@) as int + rv as int * limbs_value(d@) as int),
        );
        proof {
            sf.lemma_value_rep(
                sm@,
                pw * (limbs_value(z@) as int + rv as int * limbs_value(d@) as int),
            );
        }
        let mut s = [0u64;N];
        sf.from_mont(&mut s, &sm, t);
        if crate::bignum::bignum_is_zero(&s) == 1 {
            return Err(Error::OutOfRange);
        }
        Ok((r, s))
    }

    /// Verifies the signature `(r, s)` over the hash `z` against the public
    /// key `q`: `true` exactly for a signature that fits.
    pub fn ecdsa_verify(
        &self,
        q: &Point<N>,
        z: &[u64; N],
        r: &[u64; N],
        s: &[u64; N],
        t: &mut [u64],
    ) -> (ok: bool)
        requires
            self.wf(),
            old(t)@.len() == 2 * N,
            q.reduced(&self.field),
        ensures
            final(t)@.len() == 2 * N,
            ok == ecdsa_valid(
                q.model(&self.field),
                limbs_value(z@),
                limbs_value(r@),
                limbs_value(s@),
                (64 * N) as nat,
                self.generator(),
                self.field.p@,
                limbs_value(self.order@),
            ),
    {
        let sf = &self.scalar_field;
        let ghost n = limbs_value(self.order@);
        let ghost rv = limbs_value(r@);
        let ghost sv = limbs_value(s@);
        let ghost zv = limbs_value(z@);
        let ghost pw = inverse_power(sv, n);
        let r_ok = and_not(limbs_lt(r, &self.order), crate::bignum::bignum_is_zero(r));
        let s_ok = and_not(limbs_lt(s, &self.order), crate::bignum::bignum_is_zero(s));
        if r_ok == 0 || s_ok == 0 {
            return false;
        }
        let mut sm = [0u64;N];
        sf.to_mont(&mut sm, s, t);
        let mut zm = [0u64;N];
        sf.to_mont(&mut zm, z, t);
        let mut rm = [0u64;N];
        sf.to_mont(&mut rm, r, t);
        proof {
            vstd::arithmetic::div_mod::lemma_small_mod(limbs_value(sm@), n);
            vstd::arithmetic::div_mod::lemma_small_mod(limbs_value(zm@), n);
            vstd::arithmetic::div_mod::lemma_small_mod(limbs_value(rm@), n);
            assert(sf.rep(sm@, sv as int));
            assert(sf.rep(zm@, zv as int));
            assert(sf.rep(rm@, rv as int));
            sf.lemma_value_rep(sm@, sv as int);
            vstd::arithmetic::div_mod::lemma_small_mod(sv, n);
        }
        let w = sf.inverse(&sm, t);
        proof {
            sf.lemma_rep_value(w@);
            lemma_rep_congruent(limbs_value(w@), pw, radix(N as nat), n);
        }
        let mut u1m = [0u64;N];
        sf.mul_t(&mut u1m, &zm, &w, t, Ghost(zv as int), Ghost(pw));
        let mut u2m = [0u64;N];
        sf.mul_t(&mut u2m, &rm, &w, t, Ghost(rv as int), Ghost(pw));
        proof {
            sf.lemma_value_rep(u1m@, zv * pw);
            sf.lemma_value_rep(u2m@, rv * pw);
        }
        let mut u1 = [0u64;N];
        sf.from_mont(&mut u1, &u1m, t);
        let mut u2 = [0u64;N];
        sf.from_mont(&mut u2, &u2m, t);
        let g = self.base_point(t);
        let p1 = self.field.scalar_mul(&u1, &g, t);
        let p2 = self.field.scalar_mul(&u2, q, t);
        let sum = self.field.point_add(&p1, &p2, t);
        if self.field.is_identity(&sum) == 1 {
            return false;
        }
        let (x, _y) = self.field.to_affine(&sum, t);
        let v = self.reduce_scalar(&x, t);
        let differ = limbs_lt(&v, r) + limbs_lt(r, &v);
        differ == 0
    }

    /// Verification on encoded operands: the public key in the uncompressed
    /// form, the digest on `8 N` bytes, and the signature as `r` then `s`,
    /// each big-endian on `8 N` bytes.  A signature that does not fit is
    /// `BadSignature`.
    pub fn ecdsa_verify_bytes(
        &self,
        public: &[u8],
        digest: &[u8],
        signature: &[u8],
        t: &mut [u64],
    ) -> (res: Result<(), Error>)
        requires
            self.wf(),
            old(t)@.len() == 2 * N,
        ensures
            final(t)@.len() == 2 * N,
            res == ecdsa_verify_bytes_spec(
                public@,
                digest@,
                signature@,
                N as nat,
                limbs_value(self.order@),
                self.field.value(self.b@),
                self.generator(),
                self.field.p@,
            ),
    {
        let q = match self.decode_point(public, t) {
            Ok(q) => q,
            Err(e) => {
                return Err(e);
            },
        };
        let dl = digest.len();
        let sl = signature.len();
        if dl / 8 != N || dl % 8 != 0 || sl / 16 != N || sl % 16 != 0 {
            return Err(Error::WrongLength);
        }
        let z = limbs_from_be_bytes::<N>(digest);
        let r = limbs_from_be_bytes::<N>(slice_subrange(signature, 0, dl));
        let s = limbs_from_be_bytes::<N>(slice_subrange(signature, dl, sl));
        if self.ecdsa_verify(&q, &z, &r, &s, t) {
            Ok(())
        } else {
            Err(Error::BadSignature)
        }
    }

    /// Signing on encoded operands: the private key, the digest and the
    /// nonce each big-endian on `8 N` bytes, and the signature written to
    /// `out` as `r` then `s`.  On any error `out` is left as it was.
    pub fn ecdsa_sign_bytes(
        &self,
        private: &[u8],
        digest: &[u8],
        nonce: &[u8],
        out: &mut [u8],
        t: &mut [u64],
    ) -> (res: Result<(), Error>)
        requires
            self.wf(),
            old(t)@.len() == 2 * N,
        ensures
            final(t)@.len() == 2 * N,
            final(out)@.len() == old(out)@.len(),
            match ecdsa_sign_bytes_spec(
                private@,
                digest@,
                nonce@,
                old(out)@.len(),
                N as nat,
                limbs_value(self.order@),
                self.generator(),
                self.field.p@,
            ) {
                Ok((r, s)) => res is Ok && be_value(final(out)@.subrange(0, 8 * N)) == r && be_value(
                    final(out)@.subrange(8 * N, 16 * N),
                ) == s,
                Err(e) => res == Err::<(), Error>(e) && final(out)@ == old(out)@,
            },
    {
        let d = match self.decode_scalar(private) {
            Ok(d) => d,
            Err(e) => {
                return Err(e);
            },
        };
        let dl = digest.len();
        if dl / 8 != N || dl % 8 != 0 {
            return Err(Error::WrongLength);
        }
        let k = match self.decode_scalar(nonce) {
            Ok(k) => k,
            Err(e) => {
                return Err(e);
            },
        };
        let ol = out.len();
        if ol / 16 != N || ol % 16 != 0 {
            return Err(Error::WrongLength);
        }
        let z = limbs_from_be_bytes::<N>(digest);
        let (r, s) = match self.ecdsa_sign(&d, &z, &k, t) {
            Ok(sig) => sig,
            Err(e) => {
                return Err(e);
            },
        };
        limbs_to_be_bytes::<N>(out, 0, &r);
        let ghost o1 = out@;
        limbs_to_be_bytes::<N>(out, dl, &s);
        proof {
            assert(out@.subrange(0, 8 * N) =~= o1.subrange(0, 8 * N));
        }
        Ok(())
    }
}

} // verus!
