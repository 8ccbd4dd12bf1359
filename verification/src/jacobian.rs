//! Jacobian coordinates for short-Weierstrass curves `y^2 = x^3 - 3x + b`
//! over a prime field: the formulas, stated over the integers, and the
//! bookkeeping that ties Montgomery-domain residues to them.
//!
//! A triple `(X, Y, Z)` stands for the affine point `(X / Z^2, Y / Z^3)`;
//! `Z = 0` is the point at infinity.

use vstd::prelude::*;
use vstd::arithmetic::power::pow;
use vstd::arithmetic::div_mod::{
    lemma_mod_twice, lemma_mul_mod_noop_general, lemma_small_mod, lemma_sub_mod_noop,
};
use vstd::arithmetic::mul::{lemma_mul_is_associative, lemma_mul_is_commutative};
use crate::montgomery::{from_mont, mont_product};

verus! {

/// A point in Jacobian coordinates, each coordinate a field element given as
/// its least residue.
pub struct JacobianPoint {
    pub x: nat,
    pub y: nat,
    pub z: nat,
}

impl JacobianPoint {
    /// The point at infinity is the one with `Z = 0`.
    pub open spec fn is_identity(self) -> bool {
        self.z == 0
    }

    /// Equality as group elements of two points with the same coordinates or
    /// both at infinity.
    pub open spec fn same_point(self, other: JacobianPoint) -> bool {
        (self.is_identity() && other.is_identity()) || self == other
    }
}

/// `X3` of the sum of two points by the chord formulas, before reduction:
/// `r^2 - h^2 (u1 + u2)` with `u1 = X1 Z2^2`, `u2 = X2 Z1^2`,
/// `s1 = Y1 Z2^3`, `s2 = Y2 Z1^3`, `h = u2 - u1` and `r = s2 - s1`.
pub open spec fn chord_x(a: JacobianPoint, b: JacobianPoint) -> int {
    let u1 = a.x * (b.z * b.z);
    let u2 = b.x * (a.z * a.z);
    let s1 = a.y * (b.z * b.z * b.z);
    let s2 = b.y * (a.z * a.z * a.z);
    let h = u2 - u1;
    let r = s2 - s1;
    r * r - h * h * (u1 + u2)
}

/// `Y3` of the sum by the chord formulas, before reduction:
/// `r (u1 h^2 - X3) - s1 h^3`.
pub open spec fn chord_y(a: JacobianPoint, b: JacobianPoint) -> int {
    let u1 = a.x * (b.z * b.z);
    let u2 = b.x * (a.z * a.z);
    let s1 = a.y * (b.z * b.z * b.z);
    let s2 = b.y * (a.z * a.z * a.z);
    let h = u2 - u1;
    let r = s2 - s1;
    r * (u1 * (h * h) - chord_x(a, b)) - s1 * (h * h * h)
}

/// `Z3` of the sum by the chord formulas, before reduction: `h Z1 Z2`.
pub open spec fn chord_z(a: JacobianPoint, b: JacobianPoint) -> int {
    let u1 = a.x * (b.z * b.z);
    let u2 = b.x * (a.z * a.z);
    (u2 - u1) * a.z * b.z
}

/// The chord formulas, reduced modulo `p`.
pub open spec fn jacobian_chord(a: JacobianPoint, b: JacobianPoint, p: nat) -> JacobianPoint {
    JacobianPoint {
        x: (chord_x(a, b) % (p as int)) as nat,
        y: (chord_y(a, b) % (p as int)) as nat,
        z: (chord_z(a, b) % (p as int)) as nat,
    }
}

/// The two points have the same affine `x`: `X1 Z2^2 == X2 Z1^2`.
pub open spec fn same_x(a: JacobianPoint, b: JacobianPoint, p: nat) -> bool {
    (b.x * (a.z * a.z) - a.x * (b.z * b.z)) % (p as int) == 0
}

/// The two points have the same affine `y`: `Y1 Z2^3 == Y2 Z1^3`.
pub open spec fn same_y(a: JacobianPoint, b: JacobianPoint, p: nat) -> bool {
    (b.y * (a.z * a.z * a.z) - a.y * (b.z * b.z * b.z)) % (p as int) == 0
}

/// The part of addition that the chord formulas and the two `Z`
/// coordinates settle: where exactly one operand is the point at infinity
/// the result is the other operand, and in every other case it is what the
/// chord formulas give.  For two points at infinity, and for a point and its
/// negative, those give `Z = 0`.  It is the sum of any two operands that are
/// not the same finite point; `jacobian_add` is the sum of any two.
pub open spec fn jacobian_add_distinct(a: JacobianPoint, b: JacobianPoint, p: nat) -> JacobianPoint {
    if a.is_identity() && !b.is_identity() {
        b
    } else if b.is_identity() && !a.is_identity() {
        a
    } else {
        jacobian_chord(a, b, p)
    }
}

/// `X3` of the double of a point by the tangent formulas for a curve with
/// `a = -3`, before reduction: `alpha^2 - 8 X Y^2` with
/// `alpha = 3 (X - Z^2) (X + Z^2)`.
pub open spec fn tangent_x(a: JacobianPoint) -> int {
    let alpha = 3 * ((a.x - a.z * a.z) * (a.x + a.z * a.z));
    alpha * alpha - 8 * (a.x * (a.y * a.y))
}

/// `Y3` of the double by the tangent formulas, before reduction:
/// `alpha (4 X Y^2 - X3) - 8 Y^4`.
pub open spec fn tangent_y(a: JacobianPoint) -> int {
    let alpha = 3 * ((a.x - a.z * a.z) * (a.x + a.z * a.z));
    alpha * (4 * (a.x * (a.y * a.y)) - tangent_x(a)) - 8 * ((a.y * a.y) * (a.y * a.y))
}

/// `Z3` of the double by the tangent formulas, before reduction: `2 Y Z`.
pub open spec fn tangent_z(a: JacobianPoint) -> int {
    (2 * (a.y * a.z)) as int
}

/// Point doubling: the tangent formulas, reduced modulo `p`.  The point at
/// infinity doubles to a point with `Z = 0`.
pub open spec fn jacobian_double(a: JacobianPoint, p: nat) -> JacobianPoint {
    JacobianPoint {
        x: (tangent_x(a) % (p as int)) as nat,
        y: (tangent_y(a) % (p as int)) as nat,
        z: (tangent_z(a) % (p as int)) as nat,
    }
}

/// Point addition for any two points: as `jacobian_add_distinct`, but
/// where both operands are finite and the same point the result is the
/// double, by the tangent formulas.
pub open spec fn jacobian_add(a: JacobianPoint, b: JacobianPoint, p: nat) -> JacobianPoint {
    if !a.is_identity() && !b.is_identity() && same_x(a, b, p) && same_y(a, b, p) {
        jacobian_double(a, p)
    } else {
        jacobian_add_distinct(a, b, p)
    }
}

/// The negative of a point: `(X, -Y, Z)`.
pub open spec fn jacobian_negate(a: JacobianPoint, p: nat) -> JacobianPoint {
    JacobianPoint { x: a.x, y: ((-(a.y as int)) % (p as int)) as nat, z: a.z }
}

/// The point at infinity as scalar multiplication starts from it.
pub open spec fn jacobian_identity() -> JacobianPoint {
    JacobianPoint { x: 0, y: 0, z: 0 }
}

/// Scalar multiplication by double-and-add over the low `nbits` bits of `k`,
/// most significant bit first: start from the point at infinity, and for
/// every bit double, then add `q` where the bit is set.
pub open spec fn scalar_mul_spec(k: nat, nbits: nat, q: JacobianPoint, p: nat) -> JacobianPoint
    decreases nbits,
{
    if nbits == 0 {
        jacobian_identity()
    } else {
        let acc = scalar_mul_spec(k / 2, (nbits - 1) as nat, q, p);
        let d = jacobian_double(acc, p);
        if k % 2 == 1 {
            jacobian_add(d, q, p)
        } else {
            d
        }
    }
}

/// Fermat's power of an element, `a^(p - 2)`, which is the inverse of `a`
/// modulo a prime `p` where `a` is not zero, and 0 where it is.
pub open spec fn inverse_power(a: nat, p: nat) -> int {
    pow(a as int, (p - 2) as nat)
}

/// The affine `x` of a point: `X / Z^2`, with the inverse of `Z` taken as
/// Fermat's power.  For the point at infinity this is 0.
pub open spec fn affine_x(a: JacobianPoint, p: nat) -> nat {
    let zi = inverse_power(a.z, p);
    ((a.x * (zi * zi)) % (p as int)) as nat
}

/// The affine `y` of a point: `Y / Z^3`.  For the point at infinity this is
/// 0.
pub open spec fn affine_y(a: JacobianPoint, p: nat) -> nat {
    let zi = inverse_power(a.z, p);
    ((a.y * ((zi * zi) * zi)) % (p as int)) as nat
}

/// The curve equation `y^2 = x^3 - 3x + b` in the field of `p` elements.
pub open spec fn curve_equation(x: nat, y: nat, b: nat, p: nat) -> bool {
    (y * y - ((x * x) * x - 3 * x + b)) % (p as int) == 0
}

/// The residue `v` stands, in the Montgomery domain, for the integer `a`:
/// `v == a * R (mod p)`.
pub open spec fn mont_rep(v: nat, a: int, r: nat, p: nat) -> bool {
    (v as int) % (p as int) == (a * (r as int)) % (p as int)
}

/// Products of congruent factors are congruent.
pub proof fn lemma_mul_congruent(a: int, a2: int, b: int, b2: int, p: int)
    requires
        p > 0,
        a % p == a2 % p,
        b % p == b2 % p,
    ensures
        (a * b) % p == (a2 * b2) % p,
{
    lemma_mul_mod_noop_general(a, b, p);
    lemma_mul_mod_noop_general(a2, b2, p);
}

/// Differences of congruent terms are congruent.
pub proof fn lemma_sub_congruent(a: int, a2: int, b: int, b2: int, p: int)
    requires
        p > 0,
        a % p == a2 % p,
        b % p == b2 % p,
    ensures
        (a - b) % p == (a2 - b2) % p,
{
    lemma_sub_mod_noop(a, b, p);
    lemma_sub_mod_noop(a2, b2, p);
}

/// Sums of congruent terms are congruent.
pub proof fn lemma_add_congruent(a: int, a2: int, b: int, b2: int, p: int)
    requires
        p > 0,
        a % p == a2 % p,
        b % p == b2 % p,
    ensures
        (a + b) % p == (a2 + b2) % p,
{
    vstd::arithmetic::div_mod::lemma_add_mod_noop(a, b, p);
    vstd::arithmetic::div_mod::lemma_add_mod_noop(a2, b2, p);
}

/// `x * R * R^-1` is congruent to `x`.
pub proof fn lemma_cancel_r(x: int, r: nat, r_inv: nat, p: nat)
    requires
        p > 0,
        (r * r_inv) % p == 1,
    ensures
        ((x * (r as int)) * (r_inv as int)) % (p as int) == x % (p as int),
{
    let pi = p as int;
    let ri = r as int;
    let vi = r_inv as int;
    lemma_mul_is_associative(x, ri, vi);
    lemma_mul_mod_noop_general(x, ri * vi, pi);
    lemma_mod_twice(x, pi);
    if p == 1 {
    } else {
        lemma_small_mod(1, p);
        assert((x % pi) * 1 == x % pi);
    }
}

/// A stored residue stands for the field element it decodes to.
pub proof fn lemma_rep_input(v: nat, r: nat, r_inv: nat, p: nat)
    requires
        p > 0,
        (r * r_inv) % p == 1,
    ensures
        mont_rep(v, from_mont(v, r_inv, p) as int, r, p),
{
    let pi = p as int;
    let vi = v as int;
    let ri = r as int;
    let ii = r_inv as int;
    // from_mont(v) * r == ((v * r_inv) % p) * r, congruent to (v * r_inv) * r
    lemma_mod_twice(vi * ii, pi);
    lemma_mul_congruent((vi * ii) % pi, vi * ii, ri, ri, pi);
    lemma_mul_is_associative(vi, ii, ri);
    lemma_mul_is_commutative(ii, ri);
    lemma_mul_is_associative(vi, ri, ii);
    lemma_cancel_r(vi, r, r_inv, p);
}

/// The Montgomery product of residues that stand for `a` and `b` stands for
/// `a * b`.  It is enough that the result is congruent to the product, as an
/// almost-reduced one is.
pub proof fn lemma_rep_mul(x: nat, a: int, y: nat, b: int, z: nat, r: nat, r_inv: nat, p: nat)
    requires
        p > 0,
        (r * r_inv) % p == 1,
        mont_rep(x, a, r, p),
        mont_rep(y, b, r, p),
        z % p == mont_product(x, y, r_inv, p),
    ensures
        mont_rep(z, a * b, r, p),
{
    let pi = p as int;
    let ri = r as int;
    let ii = r_inv as int;
    let xi = x as int;
    let yi = y as int;
    lemma_mod_twice((xi * yi) * ii, pi);
    // x * y is congruent to (a r) (b r)
    lemma_mul_congruent(xi, a * ri, yi, b * ri, pi);
    lemma_mul_congruent(xi * yi, (a * ri) * (b * ri), ii, ii, pi);
    // (a r) (b r) r_inv == ((a b r) r) r_inv
    assert((a * ri) * (b * ri) == ((a * b) * ri) * ri) by (nonlinear_arith);
    lemma_cancel_r((a * b) * ri, r, r_inv, p);
}

/// The modular difference of residues that stand for `a` and `b` stands for
/// `a - b`.
pub proof fn lemma_rep_sub(x: nat, a: int, y: nat, b: int, z: nat, r: nat, p: nat)
    requires
        p > 0,
        mont_rep(x, a, r, p),
        mont_rep(y, b, r, p),
        z as int == (x - y) % (p as int),
    ensures
        mont_rep(z, a - b, r, p),
{
    let pi = p as int;
    let ri = r as int;
    lemma_mod_twice(x - y, pi);
    lemma_sub_congruent(x as int, a * ri, y as int, b * ri, pi);
    assert(a * ri - b * ri == (a - b) * ri) by (nonlinear_arith);
}

/// The modular sum of residues that stand for `a` and `b` stands for
/// `a + b`.
pub proof fn lemma_rep_add(x: nat, a: int, y: nat, b: int, z: nat, r: nat, p: nat)
    requires
        p > 0,
        mont_rep(x, a, r, p),
        mont_rep(y, b, r, p),
        z == (x + y) % p,
    ensures
        mont_rep(z, a + b, r, p),
{
    let pi = p as int;
    let ri = r as int;
    lemma_mod_twice((x + y) as int, pi);
    lemma_add_congruent(x as int, a * ri, y as int, b * ri, pi);
    assert(a * ri + b * ri == (a + b) * ri) by (nonlinear_arith);
}

/// What stands for `a mod p` stands for `a`.
pub proof fn lemma_rep_congruent(v: nat, a: int, r: nat, p: nat)
    requires
        p > 0,
        mont_rep(v, a % (p as int), r, p),
    ensures
        mont_rep(v, a, r, p),
{
    vstd::arithmetic::div_mod::lemma_mul_mod_noop_left(a, r as int, p as int);
}

/// A fully reduced residue that stands for `a` decodes to `a mod p`.
pub proof fn lemma_rep_output(v: nat, a: int, r: nat, r_inv: nat, p: nat)
    requires
        p > 0,
        (r * r_inv) % p == 1,
        mont_rep(v, a, r, p),
    ensures
        from_mont(v, r_inv, p) as int == a % (p as int),
{
    let pi = p as int;
    let ri = r as int;
    let ii = r_inv as int;
    lemma_mul_congruent(v as int, a * ri, ii, ii, pi);
    lemma_cancel_r(a, r, r_inv, p);
}

/// Only the zero residue decodes to zero.
pub proof fn lemma_from_mont_zero(v: nat, r: nat, r_inv: nat, p: nat)
    requires
        p > 0,
        v < p,
        (r * r_inv) % p == 1,
    ensures
        from_mont(v, r_inv, p) == 0 <==> v == 0,
{
    if v == 0 {
        assert(0 * r_inv == 0);
        lemma_small_mod(0, p);
    }
    if from_mont(v, r_inv, p) == 0 {
        lemma_rep_input(v, r, r_inv, p);
        assert(0 * (r as int) == 0);
        lemma_small_mod(v, p);
        lemma_small_mod(0, p);
    }
}

/// Adding the point at infinity on the right leaves a point as it is.
pub proof fn lemma_add_identity_right(a: JacobianPoint, o: JacobianPoint, p: nat)
    requires
        p > 0,
        o.is_identity(),
    ensures
        jacobian_add(a, o, p).same_point(a),
        jacobian_add_distinct(a, o, p).same_point(a),
        !a.is_identity() ==> jacobian_add(a, o, p) == a,
{
    if a.is_identity() {
        lemma_chord_z_of_identity(a, o, p);
    }
}

/// Adding the point at infinity on the left leaves a point as it is.
pub proof fn lemma_add_identity_left(o: JacobianPoint, b: JacobianPoint, p: nat)
    requires
        p > 0,
        o.is_identity(),
    ensures
        jacobian_add(o, b, p).same_point(b),
        jacobian_add_distinct(o, b, p).same_point(b),
        !b.is_identity() ==> jacobian_add(o, b, p) == b,
{
    if b.is_identity() {
        lemma_chord_z_of_identity(o, b, p);
    }
}

/// The sum of the point at infinity and itself is the point at infinity.
pub proof fn lemma_add_identities(o1: JacobianPoint, o2: JacobianPoint, p: nat)
    requires
        p > 0,
        o1.is_identity(),
        o2.is_identity(),
    ensures
        jacobian_add(o1, o2, p).is_identity(),
        jacobian_add_distinct(o1, o2, p).is_identity(),
{
    lemma_chord_z_of_identity(o1, o2, p);
}

/// The chord formulas give `Z = 0` as soon as one operand has `Z = 0`.
pub proof fn lemma_chord_z_of_identity(a: JacobianPoint, b: JacobianPoint, p: nat)
    requires
        p > 0,
        a.is_identity() || b.is_identity(),
    ensures
        jacobian_chord(a, b, p).is_identity(),
{
    let u1 = a.x * (b.z * b.z);
    let u2 = b.x * (a.z * a.z);
    let h = u2 - u1;
    if a.is_identity() {
        assert(h * a.z == 0) by (nonlinear_arith)
            requires
                a.z == 0,
        ;
        assert((h * a.z) * b.z == 0) by (nonlinear_arith)
            requires
                h * a.z == 0,
        ;
    } else {
        assert((h * a.z) * b.z == 0) by (nonlinear_arith)
            requires
                b.z == 0,
        ;
    }
    assert(chord_z(a, b) == 0);
    lemma_small_mod(0, p);
}

/// The double of the point at infinity is the point at infinity.
pub proof fn lemma_double_identity(o: JacobianPoint, p: nat)
    requires
        p > 0,
        o.is_identity(),
    ensures
        jacobian_double(o, p).is_identity(),
{
    assert(o.y * o.z == 0) by (nonlinear_arith)
        requires
            o.z == 0,
    ;
    lemma_small_mod(0, p);
}

/// The sum of a point and its negative is the point at infinity, for every
/// point that is not its own negative.
pub proof fn lemma_add_negative(a: JacobianPoint, p: nat)
    requires
        p > 0,
        a.y < p,
    ensures
        jacobian_add_distinct(a, jacobian_negate(a, p), p).is_identity(),
        a.is_identity() || !same_y(a, jacobian_negate(a, p), p) ==> jacobian_add(
            a,
            jacobian_negate(a, p),
            p,
        ).is_identity(),
{
    let b = jacobian_negate(a, p);
    if a.is_identity() {
        lemma_chord_z_of_identity(a, b, p);
    } else {
        let u1 = a.x * (b.z * b.z);
        let u2 = b.x * (a.z * a.z);
        assert(u1 == u2);
        assert(((u2 - u1) * a.z) * b.z == 0) by (nonlinear_arith)
            requires
                u2 - u1 == 0,
        ;
        lemma_small_mod(0, p);
    }
}

/// For two finite operands that are the same point, addition is doubling.
pub proof fn lemma_add_same_is_double(a: JacobianPoint, p: nat)
    requires
        p > 0,
        !a.is_identity(),
    ensures
        jacobian_add(a, a, p) == jacobian_double(a, p),
{
    lemma_small_mod(0, p);
}

/// Zero times a point is the point at infinity.
pub proof fn lemma_scalar_mul_zero(nbits: nat, q: JacobianPoint, p: nat)
    requires
        p > 0,
    ensures
        scalar_mul_spec(0, nbits, q, p) == jacobian_identity(),
    decreases nbits,
{
    if nbits > 0 {
        lemma_scalar_mul_zero((nbits - 1) as nat, q, p);
        let o = jacobian_identity();
        assert(tangent_x(o) == 0) by {
            assert(o.x == 0 && o.y == 0 && o.z == 0);
        }
        assert(tangent_y(o) == 0);
        assert(tangent_z(o) == 0);
        lemma_small_mod(0, p);
    }
}

/// One times a point is that point.
pub proof fn lemma_scalar_mul_one(nbits: nat, q: JacobianPoint, p: nat)
    requires
        p > 0,
        nbits >= 1,
    ensures
        scalar_mul_spec(1, nbits, q, p).same_point(q),
        !q.is_identity() ==> scalar_mul_spec(1, nbits, q, p) == q,
{
    lemma_scalar_mul_zero((nbits - 1) as nat, q, p);
    let o = jacobian_identity();
    assert(tangent_x(o) == 0);
    assert(tangent_y(o) == 0);
    assert(tangent_z(o) == 0);
    lemma_small_mod(0, p);
    assert(jacobian_double(o, p) == o);
    lemma_add_identity_left(o, q, p);
}

} // verus!
