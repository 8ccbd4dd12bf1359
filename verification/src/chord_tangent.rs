//! What the Jacobian formulas mean: on points given by affine coordinates
//! they agree with the chord-and-tangent rule of the curve.
//!
//! With a slope `lam`, the rule puts the sum of `(x1, y1)` and `(x2, y2)` at
//! `x3 = lam^2 - x1 - x2`, `y3 = lam (x1 - x3) - y1`, where `lam` is the
//! slope of the chord, `lam (x2 - x1) = y2 - y1`, or, for a point and
//! itself on a curve with `a = -3`, of the tangent,
//! `lam (2 y1) = 3 x1^2 - 3`.  The slope is taken as given, so no division
//! comes in: the statements hold modulo any `p`.

use vstd::prelude::*;
use crate::jacobian::{
    chord_x, chord_y, chord_z, lemma_add_congruent, lemma_mul_congruent, lemma_sub_congruent,
    tangent_x, tangent_y, tangent_z, JacobianPoint,
};

verus! {

/// `a` and `b` are congruent modulo `p`.
pub open spec fn cong(a: int, b: int, p: nat) -> bool {
    a % (p as int) == b % (p as int)
}

/// The Jacobian triple `a` stands for the affine point `(x, y)`:
/// `X == x Z^2` and `Y == y Z^3` modulo `p`.
pub open spec fn jacobian_of_affine(a: JacobianPoint, x: int, y: int, p: nat) -> bool {
    cong(a.x as int, x * (a.z * a.z), p) && cong(a.y as int, y * (a.z * a.z * a.z), p)
}

/// The chord formulas agree with the chord rule: for Jacobian triples that
/// stand for the affine points `(x1, y1)` and `(x2, y2)`, and a slope `lam`
/// of the chord through them, the triple that the formulas give stands for
/// the point that the rule gives.
pub proof fn lemma_chord_rule(
    a: JacobianPoint,
    b: JacobianPoint,
    x1: int,
    y1: int,
    x2: int,
    y2: int,
    lam: int,
    p: nat,
)
    requires
        p > 0,
        jacobian_of_affine(a, x1, y1, p),
        jacobian_of_affine(b, x2, y2, p),
        cong(lam * (x2 - x1), y2 - y1, p),
    ensures
        ({
            let z3 = chord_z(a, b);
            let x3 = lam * lam - x1 - x2;
            let y3 = lam * (x1 - x3) - y1;
            &&& cong(chord_x(a, b), x3 * (z3 * z3), p)
            &&& cong(chord_y(a, b), y3 * (z3 * z3 * z3), p)
        }),
{
    let ax = a.x as int;
    let ay = a.y as int;
    let za = a.z as int;
    let bx = b.x as int;
    let by = b.y as int;
    let zb = b.z as int;
    let w = za * zb;
    let w2 = w * w;
    let w3 = w2 * w;
    let u1 = ax * (zb * zb);
    let u2 = bx * (za * za);
    let s1 = ay * (zb * zb * zb);
    let s2 = by * (za * za * za);
    let h = u2 - u1;
    let r = s2 - s1;
    let z3 = chord_z(a, b);
    let x3 = lam * lam - x1 - x2;
    let y3 = lam * (x1 - x3) - y1;
    // the four products, in terms of the affine coordinates
    assert(cong(u1, x1 * w2, p)) by {
        lemma_mul_congruent(ax, x1 * (za * za), zb * zb, zb * zb, p as int);
        assert((x1 * (za * za)) * (zb * zb) == x1 * ((za * zb) * (za * zb))) by (nonlinear_arith);
    }
    assert(cong(u2, x2 * w2, p)) by {
        lemma_mul_congruent(bx, x2 * (zb * zb), za * za, za * za, p as int);
        assert((x2 * (zb * zb)) * (za * za) == x2 * ((za * zb) * (za * zb))) by (nonlinear_arith);
    }
    assert(cong(s1, y1 * w3, p)) by {
        lemma_mul_congruent(ay, y1 * (za * za * za), zb * zb * zb, zb * zb * zb, p as int);
        assert((y1 * (za * za * za)) * (zb * zb * zb) == y1 * (((za * zb) * (za * zb)) * (za
            * zb))) by (nonlinear_arith);
    }
    assert(cong(s2, y2 * w3, p)) by {
        lemma_mul_congruent(by, y2 * (zb * zb * zb), za * za * za, za * za * za, p as int);
        assert((y2 * (zb * zb * zb)) * (za * za * za) == y2 * (((za * zb) * (za * zb)) * (za
            * zb))) by (nonlinear_arith);
    }
    // h and r
    let hd = (x2 - x1) * w2;
    assert(cong(h, hd, p)) by {
        lemma_sub_congruent(u2, x2 * w2, u1, x1 * w2, p as int);
        assert(x2 * w2 - x1 * w2 == (x2 - x1) * w2) by (nonlinear_arith);
    }
    assert(z3 == h * w) by {
        assert((h * za) * zb == h * (za * zb)) by (nonlinear_arith);
    }
    assert(cong(r, lam * z3, p)) by {
        lemma_sub_congruent(s2, y2 * w3, s1, y1 * w3, p as int);
        assert(y2 * w3 - y1 * w3 == (y2 - y1) * w3) by (nonlinear_arith);
        lemma_mul_congruent(y2 - y1, lam * (x2 - x1), w3, w3, p as int);
        assert((lam * (x2 - x1)) * w3 == lam * (hd * w)) by (nonlinear_arith)
            requires
                hd == (x2 - x1) * w2,
                w3 == w2 * w,
        ;
        lemma_mul_congruent(hd, h, w, w, p as int);
        lemma_mul_congruent(lam, lam, hd * w, h * w, p as int);
    }
    // x3
    let zz = z3 * z3;
    assert(cong(r * r, (lam * lam) * zz, p)) by {
        lemma_mul_congruent(r, lam * z3, r, lam * z3, p as int);
        assert((lam * z3) * (lam * z3) == (lam * lam) * (z3 * z3)) by (nonlinear_arith);
    }
    assert(cong((h * h) * (u1 + u2), (x1 + x2) * zz, p)) by {
        lemma_add_congruent(u1, x1 * w2, u2, x2 * w2, p as int);
        lemma_mul_congruent(h * h, h * h, u1 + u2, x1 * w2 + x2 * w2, p as int);
        assert((h * h) * (x1 * w2 + x2 * w2) == (x1 + x2) * ((h * w) * (h * w)))
            by (nonlinear_arith)
            requires
                w2 == w * w,
        ;
    }
    assert(cong(chord_x(a, b), x3 * zz, p)) by {
        lemma_sub_congruent(r * r, (lam * lam) * zz, (h * h) * (u1 + u2), (x1 + x2) * zz, p as int);
        assert((lam * lam) * zz - (x1 + x2) * zz == (lam * lam - x1 - x2) * zz)
            by (nonlinear_arith);
        assert(chord_x(a, b) == r * r - h * h * (u1 + u2));
    }
    // y3
    let zzz = z3 * z3 * z3;
    assert(cong(u1 * (h * h), x1 * zz, p)) by {
        lemma_mul_congruent(u1, x1 * w2, h * h, h * h, p as int);
        assert((x1 * w2) * (h * h) == x1 * ((h * w) * (h * w))) by (nonlinear_arith)
            requires
                w2 == w * w,
        ;
    }
    assert(cong(r * (u1 * (h * h) - chord_x(a, b)), (lam * (x1 - x3)) * zzz, p)) by {
        lemma_sub_congruent(u1 * (h * h), x1 * zz, chord_x(a, b), x3 * zz, p as int);
        lemma_mul_congruent(r, lam * z3, u1 * (h * h) - chord_x(a, b), x1 * zz - x3 * zz, p as int);
        assert((lam * z3) * (x1 * zz - x3 * zz) == (lam * (x1 - x3)) * (z3 * z3 * z3))
            by (nonlinear_arith)
            requires
                zz == z3 * z3,
        ;
    }
    assert(cong(s1 * (h * h * h), y1 * zzz, p)) by {
        lemma_mul_congruent(s1, y1 * w3, h * h * h, h * h * h, p as int);
        assert((y1 * w3) * (h * h * h) == y1 * ((h * w) * (h * w) * (h * w))) by (nonlinear_arith)
            requires
                w3 == (w * w) * w,
        ;
    }
    assert(cong(chord_y(a, b), y3 * zzz, p)) by {
        lemma_sub_congruent(
            r * (u1 * (h * h) - chord_x(a, b)),
            (lam * (x1 - x3)) * zzz,
            s1 * (h * h * h),
            y1 * zzz,
            p as int,
        );
        assert((lam * (x1 - x3)) * zzz - y1 * zzz == (lam * (x1 - x3) - y1) * zzz)
            by (nonlinear_arith);
        assert(chord_y(a, b) == r * (u1 * (h * h) - chord_x(a, b)) - s1 * (h * h * h));
    }
}

/// The tangent formulas agree with the tangent rule on a curve with
/// `a = -3`: for a Jacobian triple that stands for the affine point
/// `(x1, y1)`, and a slope `lam` of the tangent there, the triple that the
/// formulas give stands for the point that the rule gives.
pub proof fn lemma_tangent_rule(a: JacobianPoint, x1: int, y1: int, lam: int, p: nat)
    requires
        p > 0,
        jacobian_of_affine(a, x1, y1, p),
        cong(lam * (2 * y1), 3 * (x1 * x1) - 3, p),
    ensures
        ({
            let z3 = tangent_z(a);
            let x3 = lam * lam - 2 * x1;
            let y3 = lam * (x1 - x3) - y1;
            &&& cong(tangent_x(a), x3 * (z3 * z3), p)
            &&& cong(tangent_y(a), y3 * (z3 * z3 * z3), p)
        }),
{
    let ax = a.x as int;
    let ay = a.y as int;
    let z = a.z as int;
    let z2 = z * z;
    let z4 = z2 * z2;
    let z3 = tangent_z(a);
    let x3 = lam * lam - 2 * x1;
    let y3 = lam * (x1 - x3) - y1;
    let zz = z3 * z3;
    let zzz = z3 * z3 * z3;
    // v stands for the new Z in affine terms
    let v = (2 * y1) * z4;
    assert(cong(z3, v, p)) by {
        lemma_mul_congruent(ay, y1 * (z * z * z), z, z, p as int);
        lemma_mul_congruent(2, 2, ay * z, (y1 * (z * z * z)) * z, p as int);
        assert(2 * ((y1 * (z * z * z)) * z) == (2 * y1) * ((z * z) * (z * z))) by (nonlinear_arith);
        assert(z3 == 2 * (ay * z));
    }
    let alpha = 3 * ((ax - z2) * (ax + z2));
    assert(cong(alpha, lam * z3, p)) by {
        let xa = x1 * z2;
        lemma_sub_congruent(ax, xa, z2, z2, p as int);
        lemma_add_congruent(ax, xa, z2, z2, p as int);
        lemma_mul_congruent(ax - z2, xa - z2, ax + z2, xa + z2, p as int);
        lemma_mul_congruent(3, 3, (ax - z2) * (ax + z2), (xa - z2) * (xa + z2), p as int);
        assert(3 * ((xa - z2) * (xa + z2)) == (3 * (x1 * x1) - 3) * z4) by (nonlinear_arith)
            requires
                xa == x1 * z2,
                z4 == z2 * z2,
        ;
        lemma_mul_congruent(3 * (x1 * x1) - 3, lam * (2 * y1), z4, z4, p as int);
        assert((lam * (2 * y1)) * z4 == lam * v) by (nonlinear_arith)
            requires
                v == (2 * y1) * z4,
        ;
        lemma_mul_congruent(lam, lam, v, z3, p as int);
    }
    let beta = ax * (ay * ay);
    // 4 beta stands for x1 zz
    assert(cong(4 * beta, x1 * zz, p)) by {
        lemma_mul_congruent(ay, y1 * (z * z * z), ay, y1 * (z * z * z), p as int);
        lemma_mul_congruent(ax, x1 * z2, ay * ay, (y1 * (z * z * z)) * (y1 * (z * z * z)), p as int);
        lemma_mul_congruent(4, 4, beta, (x1 * z2) * ((y1 * (z * z * z)) * (y1 * (z * z * z))), p as int);
        assert(4 * ((x1 * z2) * ((y1 * (z * z * z)) * (y1 * (z * z * z)))) == x1 * (v * v))
            by (nonlinear_arith)
            requires
                v == (2 * y1) * z4,
                z4 == z2 * z2,
                z2 == z * z,
        ;
        lemma_mul_congruent(v, z3, v, z3, p as int);
        lemma_mul_congruent(x1, x1, v * v, z3 * z3, p as int);
    }
    assert(cong(tangent_x(a), x3 * zz, p)) by {
        lemma_mul_congruent(alpha, lam * z3, alpha, lam * z3, p as int);
        assert((lam * z3) * (lam * z3) == (lam * lam) * zz) by (nonlinear_arith)
            requires
                zz == z3 * z3,
        ;
        lemma_add_congruent(4 * beta, x1 * zz, 4 * beta, x1 * zz, p as int);
        assert(4 * beta + 4 * beta == 8 * beta);
        lemma_sub_congruent(alpha * alpha, (lam * lam) * zz, 8 * beta, x1 * zz + x1 * zz, p as int);
        assert((lam * lam) * zz - (x1 * zz + x1 * zz) == (lam * lam - 2 * x1) * zz)
            by (nonlinear_arith);
        assert(tangent_x(a) == alpha * alpha - 8 * beta);
    }
    let gamma2 = (ay * ay) * (ay * ay);
    assert(cong(8 * gamma2, y1 * zzz, p)) by {
        let ya = y1 * (z * z * z);
        lemma_mul_congruent(ay, ya, ay, ya, p as int);
        lemma_mul_congruent(ay * ay, ya * ya, ay * ay, ya * ya, p as int);
        lemma_mul_congruent(8, 8, gamma2, (ya * ya) * (ya * ya), p as int);
        assert(8 * ((ya * ya) * (ya * ya)) == y1 * (v * v * v)) by (nonlinear_arith)
            requires
                ya == y1 * (z * z * z),
                v == (2 * y1) * z4,
                z4 == z2 * z2,
                z2 == z * z,
        ;
        lemma_mul_congruent(v, z3, v, z3, p as int);
        lemma_mul_congruent(v * v, z3 * z3, v, z3, p as int);
        lemma_mul_congruent(y1, y1, v * v * v, z3 * z3 * z3, p as int);
    }
    assert(cong(tangent_y(a), y3 * zzz, p)) by {
        lemma_sub_congruent(4 * beta, x1 * zz, tangent_x(a), x3 * zz, p as int);
        lemma_mul_congruent(alpha, lam * z3, 4 * beta - tangent_x(a), x1 * zz - x3 * zz, p as int);
        assert((lam * z3) * (x1 * zz - x3 * zz) == (lam * (x1 - x3)) * zzz) by (nonlinear_arith)
            requires
                zz == z3 * z3,
                zzz == z3 * z3 * z3,
        ;
        lemma_sub_congruent(
            alpha * (4 * beta - tangent_x(a)),
            (lam * (x1 - x3)) * zzz,
            8 * gamma2,
            y1 * zzz,
            p as int,
        );
        assert((lam * (x1 - x3)) * zzz - y1 * zzz == (lam * (x1 - x3) - y1) * zzz)
            by (nonlinear_arith);
        assert(tangent_y(a) == alpha * (4 * beta - tangent_x(a)) - 8 * gamma2);
    }
}

} // verus!
