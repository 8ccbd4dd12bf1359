//! Point arithmetic on a short-Weierstrass curve `y^2 = x^3 - 3x + b` over a
//! prime field of `N` limbs, in Montgomery-Jacobian coordinates.
//!
//! None of the operations branches on a coordinate or on a scalar bit:
//! special cases are settled by computing every candidate and selecting with
//! masks.

use vstd::prelude::*;
use crate::bignum::bignum_select;
use crate::encoding::{be_value, limbs_from_be_bytes, limbs_to_be_bytes};
use crate::error::Error;
use crate::field::{limbs_lt, Field};
use crate::montgomery::lemma_mont_round_trip;
use vstd::slice::slice_subrange;
use crate::jacobian::{
    affine_x, affine_y, curve_equation, inverse_power, lemma_rep_congruent,
    chord_x, chord_y, chord_z, jacobian_add, jacobian_double,
    jacobian_identity, jacobian_negate, same_x, same_y, scalar_mul_spec, tangent_x, tangent_y,
    tangent_z, JacobianPoint,
};
use crate::limbs::{
    and_not, lemma_value_all_zero, lemma_value_full, lemma_value_prepend, limbs_value,
};
use vstd::arithmetic::power2::{lemma2_to64, lemma_pow2_unfold, pow2};

verus! {

/// A point in Jacobian coordinates, each coordinate a residue in the
/// Montgomery domain.
#[derive(Clone, Copy, Debug)]
pub struct Point<const N: usize> {
    pub x: [u64; N],
    pub y: [u64; N],
    pub z: [u64; N],
}

impl<const N: usize> Point<N> {
    /// Every coordinate is below the modulus.
    pub open spec fn reduced(&self, f: &Field<N>) -> bool {
        f.red(self.x@) && f.red(self.y@) && f.red(self.z@)
    }

    /// The Jacobian point that the stored coordinates stand for.
    pub open spec fn model(&self, f: &Field<N>) -> JacobianPoint {
        JacobianPoint { x: f.value(self.x@), y: f.value(self.y@), z: f.value(self.z@) }
    }
}

/// The products of the chord formulas in the order in which they are
/// written down.
proof fn lemma_chord_terms(x: int, y: int, z: int)
    ensures
        (z * z) * x == x * (z * z),
        (z * z) * (z * y) == y * (z * z * z),
{
    assert((z * z) * x == x * (z * z)) by (nonlinear_arith);
    assert((z * z) * (z * y) == y * (z * z * z)) by (nonlinear_arith);
}

/// The chord formulas as the kernel evaluates them are the chord formulas
/// as they are written down.
proof fn lemma_chord_shape(u1: int, u2: int, s1: int, s2: int, x3: int)
    ensures
        ({
            let h = u2 - u1;
            let r = s2 - s1;
            let hh = h * h;
            &&& (r * r - hh * u1) - hh * u2 == r * r - h * h * (u1 + u2)
            &&& r * (hh * u1 - x3) - (hh * u2 - hh * u1) * s1 == r * (u1 * (h * h) - x3) - s1 * (h
                * h * h)
        }),
{
    let h = u2 - u1;
    let r = s2 - s1;
    let hh = h * h;
    assert(hh * (u1 + u2) == hh * u1 + hh * u2) by (nonlinear_arith);
    assert(hh * u1 == u1 * hh) by (nonlinear_arith);
    assert((hh * u2 - hh * u1) * s1 == s1 * (hh * h)) by (nonlinear_arith)
        requires
            h == u2 - u1,
    ;
}

impl<const N: usize> Field<N> {
    /// The all-zero point, which is the point at infinity.
    pub fn identity(&self) -> (o: Point<N>)
        requires
            self.wf(),
        ensures
            o.reduced(self),
            o.model(self) == jacobian_identity(),
    {
        let o = Point { x: [0u64;N], y: [0u64;N], z: [0u64;N] };
        proof {
            lemma_value_all_zero(o.x@);
            lemma_value_all_zero(o.y@);
            lemma_value_all_zero(o.z@);
            assert(0 * self.r_inv@ == 0);
            vstd::arithmetic::div_mod::lemma_small_mod(0, self.p@);
        }
        o
    }

    /// 1 when the point is the point at infinity and 0 when it is not.
    pub fn is_identity(&self, a: &Point<N>) -> (r: u64)
        requires
            self.wf(),
            a.reduced(self),
        ensures
            r == if a.model(self).is_identity() { 1u64 } else { 0u64 },
    {
        self.is_zero(&a.z)
    }

    /// Constant-time choice between two points: `a` when `flag` is 1 and
    /// `b` when it is 0.
    pub fn select_point(&self, flag: u64, a: &Point<N>, b: &Point<N>) -> (r: Point<N>)
        requires
            flag <= 1,
        ensures
            r == if flag == 1 { *a } else { *b },
    {
        let mut r = *b;
        bignum_select(&mut r.x, flag, &a.x);
        bignum_select(&mut r.y, flag, &a.y);
        bignum_select(&mut r.z, flag, &a.z);
        proof {
            if flag == 1 {
                assert(r.x =~= a.x);
                assert(r.y =~= a.y);
                assert(r.z =~= a.z);
            } else {
                assert(r.x =~= b.x);
                assert(r.y =~= b.y);
                assert(r.z =~= b.z);
            }
        }
        r
    }

    /// The chord formulas on two points, whatever the points are, with two
    /// flags that say whether the points agree in their affine `x` and in
    /// their affine `y`.
    fn chord(&self, pa: &Point<N>, pb: &Point<N>, t: &mut [u64]) -> (r: (Point<N>, u64, u64))
        requires
            self.wf(),
            old(t)@.len() == 2 * N,
            pa.reduced(self),
            pb.reduced(self),
        ensures
            final(t)@.len() == 2 * N,
            r.0.reduced(self),
            self.rep(r.0.x@, chord_x(pa.model(self), pb.model(self))),
            self.rep(r.0.y@, chord_y(pa.model(self), pb.model(self))),
            self.rep(r.0.z@, chord_z(pa.model(self), pb.model(self))),
            r.1 == if same_x(pa.model(self), pb.model(self), self.p@) { 1u64 } else { 0u64 },
            r.2 == if same_y(pa.model(self), pb.model(self), self.p@) { 1u64 } else { 0u64 },
    {
        let ghost a = pa.model(self);
        let ghost b = pb.model(self);
        let ghost ax = a.x as int;
        let ghost ay = a.y as int;
        let ghost az = a.z as int;
        let ghost bx = b.x as int;
        let ghost by = b.y as int;
        let ghost bz = b.z as int;
        proof {
            self.lemma_rep_value(pa.x@);
            self.lemma_rep_value(pa.y@);
            self.lemma_rep_value(pa.z@);
            self.lemma_rep_value(pb.x@);
            self.lemma_rep_value(pb.y@);
            self.lemma_rep_value(pb.z@);
        }
        let mut z1sq = [0u64;N];
        self.sqr_almost_t(&mut z1sq, &pa.z, t, Ghost(az));
        let mut z2sq = [0u64;N];
        self.sqr_almost_t(&mut z2sq, &pb.z, t, Ghost(bz));
        let mut y1a = [0u64;N];
        self.mul_t(&mut y1a, &pb.z, &pa.y, t, Ghost(bz), Ghost(ay));
        let mut y2a = [0u64;N];
        self.mul_t(&mut y2a, &pa.z, &pb.y, t, Ghost(az), Ghost(by));
        let mut x2a = [0u64;N];
        self.mul_t(&mut x2a, &z1sq, &pb.x, t, Ghost(az * az), Ghost(bx));
        let mut x1a = [0u64;N];
        self.mul_t(&mut x1a, &z2sq, &pa.x, t, Ghost(bz * bz), Ghost(ax));
        let mut y2b = [0u64;N];
        self.mul_t(&mut y2b, &z1sq, &y2a, t, Ghost(az * az), Ghost(az * by));
        let mut y1b = [0u64;N];
        self.mul_t(&mut y1b, &z2sq, &y1a, t, Ghost(bz * bz), Ghost(bz * ay));
        let ghost u1 = (bz * bz) * ax;
        let ghost u2 = (az * az) * bx;
        let ghost s1 = (bz * bz) * (bz * ay);
        let ghost s2 = (az * az) * (az * by);
        let ghost h = u2 - u1;
        let ghost r = s2 - s1;
        let ghost hh = h * h;
        let mut xd = [0u64;N];
        self.sub_t(&mut xd, &x2a, &x1a, Ghost(u2), Ghost(u1));
        let mut yd = [0u64;N];
        self.sub_t(&mut yd, &y2b, &y1b, Ghost(s2), Ghost(s1));
        let mut zz = [0u64;N];
        self.sqr_almost_t(&mut zz, &xd, t, Ghost(h));
        let mut ww = [0u64;N];
        self.sqr_t(&mut ww, &yd, t, Ghost(r));
        let mut zzx1 = [0u64;N];
        self.mul_t(&mut zzx1, &zz, &x1a, t, Ghost(hh), Ghost(u1));
        let mut zzx2 = [0u64;N];
        self.mul_t(&mut zzx2, &zz, &x2a, t, Ghost(hh), Ghost(u2));
        let mut resx0 = [0u64;N];
        self.sub_t(&mut resx0, &ww, &zzx1, Ghost(r * r), Ghost(hh * u1));
        let mut t1 = [0u64;N];
        self.sub_t(&mut t1, &zzx2, &zzx1, Ghost(hh * u2), Ghost(hh * u1));
        let mut xdz = [0u64;N];
        self.mul_t(&mut xdz, &xd, &pa.z, t, Ghost(h), Ghost(az));
        let mut resx = [0u64;N];
        self.sub_t(&mut resx, &resx0, &zzx2, Ghost(r * r - hh * u1), Ghost(hh * u2));
        let ghost x3 = (r * r - hh * u1) - hh * u2;
        let mut t2 = [0u64;N];
        self.sub_t(&mut t2, &zzx1, &resx, Ghost(hh * u1), Ghost(x3));
        let mut t1b = [0u64;N];
        self.mul_t(&mut t1b, &t1, &y1b, t, Ghost(hh * u2 - hh * u1), Ghost(s1));
        let mut resz = [0u64;N];
        self.mul_t(&mut resz, &xdz, &pb.z, t, Ghost(h * az), Ghost(bz));
        let mut t2b = [0u64;N];
        self.mul_t(&mut t2b, &yd, &t2, t, Ghost(r), Ghost(hh * u1 - x3));
        let mut resy = [0u64;N];
        self.sub_t(
            &mut resy,
            &t2b,
            &t1b,
            Ghost(r * (hh * u1 - x3)),
            Ghost((hh * u2 - hh * u1) * s1),
        );
        proof {
            lemma_chord_terms(ax, ay, bz);
            lemma_chord_terms(bx, by, az);
            lemma_chord_shape(u1, u2, s1, s2, x3);
            assert(u1 == a.x * (b.z * b.z));
            assert(u2 == b.x * (a.z * a.z));
            assert(s1 == a.y * (b.z * b.z * b.z));
            assert(s2 == b.y * (a.z * a.z * a.z));
            assert(x3 == chord_x(a, b));
            assert(r * (hh * u1 - x3) - (hh * u2 - hh * u1) * s1 == chord_y(a, b));
            assert((h * az) * bz == chord_z(a, b));
            self.lemma_value_rep(xd@, h);
            self.lemma_value_rep(yd@, r);
        }
        let hz = self.is_zero(&xd);
        let rz = self.is_zero(&yd);
        (Point { x: resx, y: resy, z: resz }, hz, rz)
    }

    /// Point addition: `a + b`, for any two points.
    ///
    /// The chord formulas and the tangent formulas are both evaluated every
    /// time.  The result is then chosen by masks: an operand where the other
    /// is the point at infinity, the double where both are finite and the
    /// same point, and the chord result in every other case.
    pub fn point_add(&self, a: &Point<N>, b: &Point<N>, t: &mut [u64]) -> (r: Point<N>)
        requires
            self.wf(),
            old(t)@.len() == 2 * N,
            a.reduced(self),
            b.reduced(self),
        ensures
            final(t)@.len() == 2 * N,
            r.reduced(self),
            r.model(self) == jacobian_add(a.model(self), b.model(self), self.p@),
    {
        let (c, hz, rz) = self.chord(a, b, t);
        let d = self.point_double(a, t);
        proof {
            self.lemma_value_rep(c.x@, chord_x(a.model(self), b.model(self)));
            self.lemma_value_rep(c.y@, chord_y(a.model(self), b.model(self)));
            self.lemma_value_rep(c.z@, chord_z(a.model(self), b.model(self)));
        }
        let a_zero = self.is_identity(a);
        let b_zero = self.is_identity(b);
        let take_a = and_not(b_zero, a_zero);
        let take_b = and_not(a_zero, b_zero);
        let both_finite = and_not(1 - a_zero, b_zero);
        let same = and_not(and_not(both_finite, 1 - hz), 1 - rz);
        let r1 = self.select_point(take_a, a, &c);
        let r2 = self.select_point(take_b, b, &r1);
        let r3 = self.select_point(same, &d, &r2);
        r3
    }

    /// Mixed addition: `a + q` for a finite point `q` given by its affine
    /// coordinates, that is with `Z = 1`, which saves the products by that
    /// `Z`.  The result is that of `point_add` on `a` and `(x, y, 1)`: the
    /// chord formulas and the tangent formulas are both evaluated, and the
    /// double is selected by mask where `a` is finite and the same point
    /// as `q`.
    pub fn point_add_mixed(
        &self,
        pa: &Point<N>,
        qx: &[u64; N],
        qy: &[u64; N],
        t: &mut [u64],
    ) -> (res: Point<N>)
        requires
            self.wf(),
            old(t)@.len() == 2 * N,
            pa.reduced(self),
            self.red(qx@),
            self.red(qy@),
        ensures
            final(t)@.len() == 2 * N,
            res.reduced(self),
            res.model(self) == jacobian_add(
                pa.model(self),
                JacobianPoint { x: self.value(qx@), y: self.value(qy@), z: 1 },
                self.p@,
            ),
    {
        let ghost a = pa.model(self);
        let ghost b = JacobianPoint { x: self.value(qx@), y: self.value(qy@), z: 1 };
        let ghost ax = a.x as int;
        let ghost ay = a.y as int;
        let ghost az = a.z as int;
        let ghost bx = b.x as int;
        let ghost by = b.y as int;
        proof {
            self.lemma_rep_value(pa.x@);
            self.lemma_rep_value(pa.y@);
            self.lemma_rep_value(pa.z@);
            self.lemma_rep_value(qx@);
            self.lemma_rep_value(qy@);
        }
        let mut zp2 = [0u64;N];
        self.sqr_almost_t(&mut zp2, &pa.z, t, Ghost(az));
        let mut y2a = [0u64;N];
        self.mul_t(&mut y2a, &pa.z, qy, t, Ghost(az), Ghost(by));
        let mut x2a = [0u64;N];
        self.mul_t(&mut x2a, &zp2, qx, t, Ghost(az * az), Ghost(bx));
        let mut y2b = [0u64;N];
        self.mul_t(&mut y2b, &zp2, &y2a, t, Ghost(az * az), Ghost(az * by));
        let ghost u1 = ax;
        let ghost u2 = (az * az) * bx;
        let ghost s1 = ay;
        let ghost s2 = (az * az) * (az * by);
        let ghost h = u2 - u1;
        let ghost r = s2 - s1;
        let ghost hh = h * h;
        let mut xd = [0u64;N];
        self.sub_t(&mut xd, &x2a, &pa.x, Ghost(u2), Ghost(u1));
        let mut yd = [0u64;N];
        self.sub_t(&mut yd, &y2b, &pa.y, Ghost(s2), Ghost(s1));
        let mut zz = [0u64;N];
        self.sqr_almost_t(&mut zz, &xd, t, Ghost(h));
        let mut ww = [0u64;N];
        self.sqr_t(&mut ww, &yd, t, Ghost(r));
        let mut zzx1 = [0u64;N];
        self.mul_t(&mut zzx1, &zz, &pa.x, t, Ghost(hh), Ghost(u1));
        let mut zzx2 = [0u64;N];
        self.mul_t(&mut zzx2, &zz, &x2a, t, Ghost(hh), Ghost(u2));
        let mut resx0 = [0u64;N];
        self.sub_t(&mut resx0, &ww, &zzx1, Ghost(r * r), Ghost(hh * u1));
        let mut t1 = [0u64;N];
        self.sub_t(&mut t1, &zzx2, &zzx1, Ghost(hh * u2), Ghost(hh * u1));
        let mut resz = [0u64;N];
        self.mul_t(&mut resz, &xd, &pa.z, t, Ghost(h), Ghost(az));
        let mut resx = [0u64;N];
        self.sub_t(&mut resx, &resx0, &zzx2, Ghost(r * r - hh * u1), Ghost(hh * u2));
        let ghost x3 = (r * r - hh * u1) - hh * u2;
        let mut t2 = [0u64;N];
        self.sub_t(&mut t2, &zzx1, &resx, Ghost(hh * u1), Ghost(x3));
        let mut t1b = [0u64;N];
        self.mul_t(&mut t1b, &t1, &pa.y, t, Ghost(hh * u2 - hh * u1), Ghost(s1));
        let mut t2b = [0u64;N];
        self.mul_t(&mut t2b, &yd, &t2, t, Ghost(r), Ghost(hh * u1 - x3));
        let mut resy = [0u64;N];
        self.sub_t(
            &mut resy,
            &t2b,
            &t1b,
            Ghost(r * (hh * u1 - x3)),
            Ghost((hh * u2 - hh * u1) * s1),
        );
        proof {
            lemma_chord_terms(bx, by, az);
            lemma_chord_shape(u1, u2, s1, s2, x3);
            assert(b.z * b.z == 1);
            assert(b.z * b.z * b.z == 1);
            assert(u1 == a.x * (b.z * b.z));
            assert(u2 == b.x * (a.z * a.z));
            assert(s1 == a.y * (b.z * b.z * b.z));
            assert(s2 == b.y * (a.z * a.z * a.z));
            assert(x3 == chord_x(a, b));
            assert(r * (hh * u1 - x3) - (hh * u2 - hh * u1) * s1 == chord_y(a, b));
            assert((h * az) * 1 == h * az);
            assert(h * az == chord_z(a, b));
            self.lemma_value_rep(resx@, chord_x(a, b));
            self.lemma_value_rep(resy@, chord_y(a, b));
            self.lemma_value_rep(resz@, chord_z(a, b));
            self.lemma_value_rep(xd@, h);
            self.lemma_value_rep(yd@, r);
            assert(h == b.x * (a.z * a.z) - a.x * (b.z * b.z));
            assert(r == b.y * (a.z * a.z * a.z) - a.y * (b.z * b.z * b.z));
        }
        let hz = self.is_zero(&xd);
        let rz = self.is_zero(&yd);
        let c = Point { x: resx, y: resy, z: resz };
        let d = self.point_double(pa, t);
        let one = self.one(t);
        let q = Point { x: *qx, y: *qy, z: one };
        let a_zero = self.is_identity(pa);
        let same = and_not(and_not(1 - a_zero, 1 - hz), 1 - rz);
        let r1 = self.select_point(a_zero, &q, &c);
        self.select_point(same, &d, &r1)
    }

    /// Point doubling: `2 a`, by the tangent formulas for `a = -3`.
    pub fn point_double(&self, pa: &Point<N>, t: &mut [u64]) -> (r: Point<N>)
        requires
            self.wf(),
            old(t)@.len() == 2 * N,
            pa.reduced(self),
        ensures
            final(t)@.len() == 2 * N,
            r.reduced(self),
            r.model(self) == jacobian_double(pa.model(self), self.p@),
    {
        let ghost a = pa.model(self);
        let ghost ax = a.x as int;
        let ghost ay = a.y as int;
        let ghost az = a.z as int;
        proof {
            self.lemma_rep_value(pa.x@);
            self.lemma_rep_value(pa.y@);
            self.lemma_rep_value(pa.z@);
        }
        let mut z2 = [0u64;N];
        self.sqr_t(&mut z2, &pa.z, t, Ghost(az));
        let mut y2 = [0u64;N];
        self.sqr_t(&mut y2, &pa.y, t, Ghost(ay));
        let mut t1 = [0u64;N];
        self.sub_t(&mut t1, &pa.x, &z2, Ghost(ax), Ghost(az * az));
        let mut t2 = [0u64;N];
        self.add_t(&mut t2, &pa.x, &z2, Ghost(ax), Ghost(az * az));
        let mut a0 = [0u64;N];
        self.mul_t(&mut a0, &t1, &t2, t, Ghost(ax - az * az), Ghost(ax + az * az));
        let ghost a0v = (ax - az * az) * (ax + az * az);
        let mut a2 = [0u64;N];
        self.add_t(&mut a2, &a0, &a0, Ghost(a0v), Ghost(a0v));
        let mut al = [0u64;N];
        self.add_t(&mut al, &a2, &a0, Ghost(a0v + a0v), Ghost(a0v));
        let ghost alpha = 3 * a0v;
        let mut beta = [0u64;N];
        self.mul_t(&mut beta, &pa.x, &y2, t, Ghost(ax), Ghost(ay * ay));
        let ghost bv = ax * (ay * ay);
        let mut b2 = [0u64;N];
        self.add_t(&mut b2, &beta, &beta, Ghost(bv), Ghost(bv));
        let mut b4 = [0u64;N];
        self.add_t(&mut b4, &b2, &b2, Ghost(bv + bv), Ghost(bv + bv));
        let mut b8 = [0u64;N];
        self.add_t(&mut b8, &b4, &b4, Ghost(4 * bv), Ghost(4 * bv));
        let mut al2 = [0u64;N];
        self.sqr_t(&mut al2, &al, t, Ghost(alpha));
        let mut x3 = [0u64;N];
        self.sub_t(&mut x3, &al2, &b8, Ghost(alpha * alpha), Ghost(8 * bv));
        let ghost x3v = alpha * alpha - 8 * bv;
        let mut yz = [0u64;N];
        self.mul_t(&mut yz, &pa.y, &pa.z, t, Ghost(ay), Ghost(az));
        let mut z3 = [0u64;N];
        self.add_t(&mut z3, &yz, &yz, Ghost(ay * az), Ghost(ay * az));
        let mut g = [0u64;N];
        self.sqr_t(&mut g, &y2, t, Ghost(ay * ay));
        let ghost gv = (ay * ay) * (ay * ay);
        let mut g2 = [0u64;N];
        self.add_t(&mut g2, &g, &g, Ghost(gv), Ghost(gv));
        let mut g4 = [0u64;N];
        self.add_t(&mut g4, &g2, &g2, Ghost(gv + gv), Ghost(gv + gv));
        let mut g8 = [0u64;N];
        self.add_t(&mut g8, &g4, &g4, Ghost(4 * gv), Ghost(4 * gv));
        let mut d = [0u64;N];
        self.sub_t(&mut d, &b4, &x3, Ghost(4 * bv), Ghost(x3v));
        let mut ad = [0u64;N];
        self.mul_t(&mut ad, &al, &d, t, Ghost(alpha), Ghost(4 * bv - x3v));
        let mut y3 = [0u64;N];
        self.sub_t(&mut y3, &ad, &g8, Ghost(alpha * (4 * bv - x3v)), Ghost(8 * gv));
        proof {
            assert(x3v == tangent_x(a));
            assert(alpha * (4 * bv - x3v) - 8 * gv == tangent_y(a));
            assert(ay * az + ay * az == tangent_z(a));
            self.lemma_value_rep(x3@, tangent_x(a));
            self.lemma_value_rep(y3@, tangent_y(a));
            self.lemma_value_rep(z3@, tangent_z(a));
        }
        Point { x: x3, y: y3, z: z3 }
    }

    /// The negative of a point: `(X, -Y, Z)`.
    pub fn point_negate(&self, pa: &Point<N>) -> (r: Point<N>)
        requires
            self.wf(),
            pa.reduced(self),
        ensures
            r.reduced(self),
            r.model(self) == jacobian_negate(pa.model(self), self.p@),
    {
        let zero = [0u64;N];
        let mut y = [0u64;N];
        proof {
            lemma_value_all_zero(zero@);
            self.lemma_rep_value(pa.y@);
            assert(0 * crate::limbs::radix(N as nat) == 0);
            vstd::arithmetic::div_mod::lemma_small_mod(0, self.p@);
            assert(self.rep(zero@, 0));
        }
        self.sub_t(&mut y, &zero, &pa.y, Ghost(0), Ghost(pa.model(self).y as int));
        proof {
            self.lemma_value_rep(y@, 0 - pa.model(self).y as int);
        }
        Point { x: pa.x, y: y, z: pa.z }
    }

    /// Scalar multiplication: `k q`, by double-and-add over all `64 N` bits
    /// of `k`, most significant bit first.
    ///
    /// Every bit costs one doubling and one addition, whatever its value:
    /// the sum is computed each time, and kept or dropped by a masked
    /// selection.
    pub fn scalar_mul(&self, k: &[u64; N], q: &Point<N>, t: &mut [u64]) -> (r: Point<N>)
        requires
            self.wf(),
            old(t)@.len() == 2 * N,
            q.reduced(self),
        ensures
            final(t)@.len() == 2 * N,
            r.reduced(self),
            r.model(self) == scalar_mul_spec(
                limbs_value(k@),
                (64 * N) as nat,
                q.model(self),
                self.p@,
            ),
    {
        let mut acc = self.identity();
        let ghost qm = q.model(self);
        let ghost mut prefix: nat = 0;
        let mut i: usize = N;
        proof {
            assert(limbs_value(k@.subrange(N as int, N as int)) == 0);
        }
        while i > 0
            invariant
                self.wf(),
                t@.len() == 2 * N,
                q.reduced(self),
                qm == q.model(self),
                i <= N,
                acc.reduced(self),
                prefix == limbs_value(k@.subrange(i as int, N as int)),
                acc.model(self) == scalar_mul_spec(prefix, (64 * (N - i)) as nat, qm, self.p@),
            decreases i,
        {
            i -= 1;
            let orig = k[i];
            let mut w = orig;
            let ghost hv = prefix;
            let ghost mut consumed: nat = 0;
            let mut j: usize = 0;
            proof {
                lemma2_to64();
                assert(hv * 1 == hv);
                assert(orig * 1 == orig);
            }
            while j < 64
                invariant
                    self.wf(),
                    t@.len() == 2 * N,
                    q.reduced(self),
                    qm == q.model(self),
                    i < N,
                    j <= 64,
                    acc.reduced(self),
                    orig * pow2(j as nat) == consumed * 0x1_0000_0000_0000_0000 + w,
                    prefix == hv * pow2(j as nat) + consumed,
                    acc.model(self) == scalar_mul_spec(
                        prefix,
                        (64 * (N - 1 - i) + j) as nat,
                        qm,
                        self.p@,
                    ),
                decreases 64 - j,
            {
                let bit = w / 0x8000_0000_0000_0000;
                let ghost wb = w;
                w = (w % 0x8000_0000_0000_0000) * 2;
                let d = self.point_double(&acc, t);
                let s = self.point_add(&d, q, t);
                acc = self.select_point(bit, &s, &d);
                proof {
                    let pj = pow2(j as nat) as int;
                    lemma_pow2_unfold((j + 1) as nat);
                    assert(pow2((j + 1) as nat) == 2 * pj);
                    assert(orig * (2 * pj) == 2 * (orig * pj)) by (nonlinear_arith);
                    assert(hv * (2 * pj) == 2 * (hv * pj)) by (nonlinear_arith);
                    assert((2 * consumed + bit) * 0x1_0000_0000_0000_0000 == 2 * (consumed
                        * 0x1_0000_0000_0000_0000) + bit * 0x1_0000_0000_0000_0000)
                        by (nonlinear_arith);
                    assert(bit * 0x1_0000_0000_0000_0000 == if bit == 1 {
                        0x1_0000_0000_0000_0000int
                    } else {
                        0int
                    });
                    let np: nat = 2 * prefix + bit as nat;
                    assert(np / 2 == prefix);
                    assert(np % 2 == bit as nat);
                    consumed = 2 * consumed + bit as nat;
                    prefix = np;
                }
                j += 1;
            }
            proof {
                assert(pow2(64) == 0x1_0000_0000_0000_0000);
                assert(orig * pow2(64) == 0x1_0000_0000_0000_0000 * orig) by (nonlinear_arith)
                    requires
                        pow2(64) == 0x1_0000_0000_0000_0000,
                ;
                assert(consumed * 0x1_0000_0000_0000_0000 == 0x1_0000_0000_0000_0000 * consumed)
                    by (nonlinear_arith);
                assert(consumed == orig);
                assert(hv * pow2(64) == 0x1_0000_0000_0000_0000 * hv) by (nonlinear_arith)
                    requires
                        pow2(64) == 0x1_0000_0000_0000_0000,
                ;
                lemma_value_prepend(k@, i as int);
            }
        }
        proof {
            lemma_value_full(k@);
        }
        acc
    }

    /// The affine coordinates of a point, out of the Montgomery domain:
    /// `(X / Z^2, Y / Z^3)`.  The point at infinity gives `(0, 0)`.
    pub fn to_affine(&self, pa: &Point<N>, t: &mut [u64]) -> (r: ([u64; N], [u64; N]))
        requires
            self.wf(),
            old(t)@.len() == 2 * N,
            pa.reduced(self),
        ensures
            final(t)@.len() == 2 * N,
            limbs_value(r.0@) == affine_x(pa.model(self), self.p@),
            limbs_value(r.1@) == affine_y(pa.model(self), self.p@),
    {
        let ghost a = pa.model(self);
        let ghost pw = inverse_power(a.z, self.p@);
        let zi = self.inverse(&pa.z, t);
        proof {
            self.lemma_rep_value(pa.x@);
            self.lemma_rep_value(pa.y@);
            self.lemma_rep_value(zi@);
            lemma_rep_congruent(
                limbs_value(zi@),
                pw,
                crate::limbs::radix(N as nat),
                self.p@,
            );
        }
        let mut zi2 = [0u64;N];
        self.sqr_t(&mut zi2, &zi, t, Ghost(pw));
        let mut x = [0u64;N];
        self.mul_t(&mut x, &pa.x, &zi2, t, Ghost(a.x as int), Ghost(pw * pw));
        let mut zi3 = [0u64;N];
        self.mul_t(&mut zi3, &zi2, &zi, t, Ghost(pw * pw), Ghost(pw));
        let mut y = [0u64;N];
        self.mul_t(&mut y, &pa.y, &zi3, t, Ghost(a.y as int), Ghost((pw * pw) * pw));
        proof {
            self.lemma_value_rep(x@, a.x * (pw * pw));
            self.lemma_value_rep(y@, a.y * ((pw * pw) * pw));
        }
        let mut xo = [0u64;N];
        self.from_mont(&mut xo, &x, t);
        let mut yo = [0u64;N];
        self.from_mont(&mut yo, &y, t);
        (xo, yo)
    }
}

/// What decoding an uncompressed point gives: the affine coordinates, or the
/// reason why there are none.  The checks come in this order: the length
/// `1 + 16 n`, the tag 4, both coordinates below `p`, the curve equation.
pub open spec fn decode_point_spec(bytes: Seq<u8>, n: nat, b: nat, p: nat) -> Result<
    (nat, nat),
    Error,
> {
    if bytes.len() != 1 + 16 * n {
        Err(Error::WrongLength)
    } else if bytes[0] != 4 {
        Err(Error::NotUncompressed)
    } else {
        let x = be_value(bytes.subrange(1, 1 + 8 * n as int));
        let y = be_value(bytes.subrange(1 + 8 * n as int, 1 + 16 * n as int));
        if x >= p || y >= p {
            Err(Error::OutOfRange)
        } else if !curve_equation(x, y, b, p) {
            Err(Error::NotOnCurve)
        } else {
            Ok((x, y))
        }
    }
}

/// The bytes are the uncompressed encoding of the affine form of `a`: the
/// tag 4, then `x`, then `y`, each big-endian on `8 n` bytes.
pub open spec fn encodes_point(bytes: Seq<u8>, a: JacobianPoint, n: nat, p: nat) -> bool {
    &&& bytes.len() == 1 + 16 * n
    &&& bytes[0] == 4
    &&& be_value(bytes.subrange(1, 1 + 8 * n as int)) == affine_x(a, p)
    &&& be_value(bytes.subrange(1 + 8 * n as int, 1 + 16 * n as int)) == affine_y(a, p)
}

/// What scalar multiplication on encoded operands gives: the product, or the
/// reason why there is none.  The scalar is checked first (length, then
/// range `0 < k < order`), then the point as `decode_point_spec` does, then
/// the length of the output buffer; a product at infinity has no encoding
/// and is `NotOnCurve`.
pub open spec fn scalar_mul_bytes_spec(
    scalar: Seq<u8>,
    point: Seq<u8>,
    out_len: nat,
    n: nat,
    order: nat,
    b: nat,
    p: nat,
) -> Result<JacobianPoint, Error> {
    if scalar.len() != 8 * n {
        Err(Error::WrongLength)
    } else if !(0 < be_value(scalar) < order) {
        Err(Error::OutOfRange)
    } else {
        match decode_point_spec(point, n, b, p) {
            Err(e) => Err(e),
            Ok((x, y)) => {
                if out_len != 1 + 16 * n {
                    Err(Error::WrongLength)
                } else {
                    let r = scalar_mul_spec(
                        be_value(scalar),
                        64 * n,
                        JacobianPoint { x: x, y: y, z: 1 },
                        p,
                    );
                    if r.is_identity() {
                        Err(Error::NotOnCurve)
                    } else {
                        Ok(r)
                    }
                }
            },
        }
    }
}

/// A curve `y^2 = x^3 - 3x + b` over a prime field, with the order of its
/// group of points.
pub struct Curve<const N: usize> {
    /// The field of coordinates.
    pub field: Field<N>,
    /// The coefficient `b`, in the Montgomery domain.
    pub b: [u64; N],
    /// The order `n` of the group, as a plain number.
    pub order: [u64; N],
    /// The field of scalars: the integers modulo the order.
    pub scalar_field: Field<N>,
    /// The affine `x` of the base point, in the Montgomery domain.
    pub gx: [u64; N],
    /// The affine `y` of the base point, in the Montgomery domain.
    pub gy: [u64; N],
}

impl<const N: usize> Curve<N> {
    /// The parameters belong together.
    pub open spec fn wf(&self) -> bool {
        &&& self.field.wf()
        &&& self.field.red(self.b@)
        &&& self.scalar_field.wf()
        &&& self.scalar_field.p@ == limbs_value(self.order@)
        &&& self.field.red(self.gx@)
        &&& self.field.red(self.gy@)
    }

    /// The base point.
    pub open spec fn generator(&self) -> JacobianPoint {
        JacobianPoint { x: self.field.value(self.gx@), y: self.field.value(self.gy@), z: 1 }
    }

    /// 1 when the point with affine coordinates `x` and `y`, given in the
    /// Montgomery domain, satisfies the curve equation, and 0 when it does
    /// not.
    pub fn on_curve(&self, x: &[u64; N], y: &[u64; N], t: &mut [u64]) -> (r: u64)
        requires
            self.wf(),
            old(t)@.len() == 2 * N,
            self.field.red(x@),
            self.field.red(y@),
        ensures
            final(t)@.len() == 2 * N,
            r == if curve_equation(
                self.field.value(x@),
                self.field.value(y@),
                self.field.value(self.b@),
                self.field.p@,
            ) { 1u64 } else { 0u64 },
    {
        let f = &self.field;
        let ghost xv = f.value(x@) as int;
        let ghost yv = f.value(y@) as int;
        let ghost bv = f.value(self.b@) as int;
        proof {
            f.lemma_rep_value(x@);
            f.lemma_rep_value(y@);
            f.lemma_rep_value(self.b@);
        }
        let mut y2 = [0u64;N];
        f.sqr_t(&mut y2, y, t, Ghost(yv));
        let mut x2 = [0u64;N];
        f.sqr_t(&mut x2, x, t, Ghost(xv));
        let mut x3 = [0u64;N];
        f.mul_t(&mut x3, &x2, x, t, Ghost(xv * xv), Ghost(xv));
        let mut xx = [0u64;N];
        f.add_t(&mut xx, x, x, Ghost(xv), Ghost(xv));
        let mut xxx = [0u64;N];
        f.add_t(&mut xxx, &xx, x, Ghost(xv + xv), Ghost(xv));
        let mut r1 = [0u64;N];
        f.sub_t(&mut r1, &x3, &xxx, Ghost((xv * xv) * xv), Ghost(xv + xv + xv));
        let mut r2 = [0u64;N];
        f.add_t(&mut r2, &r1, &self.b, Ghost((xv * xv) * xv - (xv + xv + xv)), Ghost(bv));
        let mut d = [0u64;N];
        f.sub_t(
            &mut d,
            &y2,
            &r2,
            Ghost(yv * yv),
            Ghost((xv * xv) * xv - (xv + xv + xv) + bv),
        );
        proof {
            f.lemma_value_rep(d@, yv * yv - ((xv * xv) * xv - (xv + xv + xv) + bv));
        }
        f.is_zero(&d)
    }

    /// Decodes a coordinate from its big-endian bytes and carries it into
    /// the Montgomery domain.  A string of the wrong length is
    /// `WrongLength`; a value that is not below `p` is `OutOfRange`, and is
    /// never reduced.
    pub fn decode_coordinate(&self, bytes: &[u8], t: &mut [u64]) -> (r: Result<[u64; N], Error>)
        requires
            self.wf(),
            old(t)@.len() == 2 * N,
        ensures
            final(t)@.len() == 2 * N,
            match r {
                Ok(v) => bytes@.len() == 8 * N && be_value(bytes@) < self.field.p@
                    && self.field.red(v@) && self.field.value(v@) == be_value(bytes@),
                Err(e) => (e == Error::WrongLength && bytes@.len() != 8 * N) || (e
                    == Error::OutOfRange && bytes@.len() == 8 * N && be_value(bytes@)
                    >= self.field.p@),
            },
    {
        let len = bytes.len();
        if len / 8 != N || len % 8 != 0 {
            return Err(Error::WrongLength);
        }
        let x = limbs_from_be_bytes::<N>(bytes);
        if self.field.is_reduced(&x) == 0 {
            return Err(Error::OutOfRange);
        }
        let mut v = [0u64;N];
        self.field.to_mont(&mut v, &x, t);
        proof {
            lemma_mont_round_trip(
                limbs_value(x@),
                crate::limbs::radix(N as nat),
                self.field.r_inv@,
                self.field.p@,
            );
        }
        Ok(v)
    }

    /// Decodes a scalar from its big-endian bytes.  A string of the wrong
    /// length is `WrongLength`; zero, and a value that is not below the
    /// group order, is `OutOfRange`.
    pub fn decode_scalar(&self, bytes: &[u8]) -> (r: Result<[u64; N], Error>)
        ensures
            match r {
                Ok(k) => bytes@.len() == 8 * N && 0 < be_value(bytes@) < limbs_value(self.order@)
                    && limbs_value(k@) == be_value(bytes@),
                Err(e) => (e == Error::WrongLength && bytes@.len() != 8 * N) || (e
                    == Error::OutOfRange && bytes@.len() == 8 * N && !(0 < be_value(bytes@)
                    < limbs_value(self.order@))),
            },
    {
        let len = bytes.len();
        if len / 8 != N || len % 8 != 0 {
            return Err(Error::WrongLength);
        }
        let k = limbs_from_be_bytes::<N>(bytes);
        let below = limbs_lt(&k, &self.order);
        let zero = crate::bignum::bignum_is_zero(&k);
        if and_not(below, zero) == 0 {
            return Err(Error::OutOfRange);
        }
        Ok(k)
    }

    /// Decodes a point from its uncompressed encoding and checks that it is
    /// on the curve before anything is done with it.
    pub fn decode_point(&self, bytes: &[u8], t: &mut [u64]) -> (r: Result<Point<N>, Error>)
        requires
            self.wf(),
            old(t)@.len() == 2 * N,
        ensures
            final(t)@.len() == 2 * N,
            match (r, decode_point_spec(
                bytes@,
                N as nat,
                self.field.value(self.b@),
                self.field.p@,
            )) {
                (Ok(pt), Ok((x, y))) => pt.reduced(&self.field) && pt.model(&self.field)
                    == (JacobianPoint { x: x, y: y, z: 1 }),
                (Err(e), Err(e2)) => e == e2,
                _ => false,
            },
    {
        let len = bytes.len();
        if len == 0 || (len - 1) / 16 != N || (len - 1) % 16 != 0 {
            return Err(Error::WrongLength);
        }
        if bytes[0] != 4 {
            return Err(Error::NotUncompressed);
        }
        let half = (len - 1) / 2;
        let xb = slice_subrange(bytes, 1, 1 + half);
        let yb = slice_subrange(bytes, 1 + half, len);
        let x = match self.decode_coordinate(xb, t) {
            Ok(v) => v,
            Err(e) => {
                return Err(Error::OutOfRange);
            },
        };
        let y = match self.decode_coordinate(yb, t) {
            Ok(v) => v,
            Err(e) => {
                return Err(Error::OutOfRange);
            },
        };
        if self.on_curve(&x, &y, t) == 0 {
            return Err(Error::NotOnCurve);
        }
        let z = self.field.one(t);
        Ok(Point { x: x, y: y, z: z })
    }

    /// Encodes a point in the uncompressed form into `out`.  A buffer of
    /// the wrong length is `WrongLength`, and the point at infinity, which
    /// has no such encoding, is `NotOnCurve`; in both cases `out` is left as
    /// it was.
    pub fn encode_point(&self, out: &mut [u8], pt: &Point<N>, t: &mut [u64]) -> (r: Result<
        (),
        Error,
    >)
        requires
            self.wf(),
            old(t)@.len() == 2 * N,
            pt.reduced(&self.field),
        ensures
            final(t)@.len() == 2 * N,
            final(out)@.len() == old(out)@.len(),
            match r {
                Ok(_) => !pt.model(&self.field).is_identity() && encodes_point(
                    final(out)@,
                    pt.model(&self.field),
                    N as nat,
                    self.field.p@,
                ),
                Err(e) => final(out)@ == old(out)@ && ((e == Error::WrongLength && old(out)@.len()
                    != 1 + 16 * N) || (e == Error::NotOnCurve && old(out)@.len() == 1 + 16 * N
                    && pt.model(&self.field).is_identity())),
            },
    {
        let len = out.len();
        if len == 0 || (len - 1) / 16 != N || (len - 1) % 16 != 0 {
            return Err(Error::WrongLength);
        }
        if self.field.is_identity(pt) == 1 {
            return Err(Error::NotOnCurve);
        }
        let half = (len - 1) / 2;
        let (x, y) = self.field.to_affine(pt, t);
        out[0] = 4;
        limbs_to_be_bytes::<N>(out, 1, &x);
        let ghost o1 = out@;
        limbs_to_be_bytes::<N>(out, 1 + half, &y);
        proof {
            assert(out@.subrange(1, 1 + 8 * N) =~= o1.subrange(1, 1 + 8 * N));
        }
        Ok(())
    }

    /// Scalar multiplication on encoded operands: decodes and validates the
    /// scalar and the point, multiplies, and encodes the product into `out`.
    /// On any error `out` is left as it was.
    pub fn scalar_mul_bytes(&self, scalar: &[u8], point: &[u8], out: &mut [u8], t: &mut [u64]) -> (r:
        Result<(), Error>)
        requires
            self.wf(),
            old(t)@.len() == 2 * N,
        ensures
            final(t)@.len() == 2 * N,
            final(out)@.len() == old(out)@.len(),
            match scalar_mul_bytes_spec(
                scalar@,
                point@,
                old(out)@.len(),
                N as nat,
                limbs_value(self.order@),
                self.field.value(self.b@),
                self.field.p@,
            ) {
                Ok(prod) => r is Ok && encodes_point(final(out)@, prod, N as nat, self.field.p@),
                Err(e) => r == Err::<(), Error>(e) && final(out)@ == old(out)@,
            },
    {
        let k = match self.decode_scalar(scalar) {
            Ok(k) => k,
            Err(e) => {
                return Err(e);
            },
        };
        let q = match self.decode_point(point, t) {
            Ok(q) => q,
            Err(e) => {
                return Err(e);
            },
        };
        let len = out.len();
        if len == 0 || (len - 1) / 16 != N || (len - 1) % 16 != 0 {
            return Err(Error::WrongLength);
        }
        let prod = self.field.scalar_mul(&k, &q, t);
        self.encode_point(out, &prod, t)
    }
}

} // verus!
