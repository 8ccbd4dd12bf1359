//! Point addition on the curve P-384 in Montgomery-Jacobian coordinates.
//!
//! A point is eighteen limbs: `X`, `Y` and `Z` of six limbs each, every
//! coordinate a residue below `p` in the Montgomery domain.

use vstd::prelude::*;
use crate::jacobian::{jacobian_add, JacobianPoint};
use crate::limbs::limbs_value;
use crate::montgomery::from_mont;
use crate::p384::{p384_field, p384_prime, p384_r_inv};
use crate::weierstrass::Point;

verus! {

/// Coordinate `k` (0 for `X`, 1 for `Y`, 2 for `Z`) of a stored point, as the
/// Montgomery-domain residue that its six limbs hold.
pub open spec fn p384_coord(p: Seq<u64>, k: int) -> nat {
    limbs_value(p.subrange(6 * k, 6 * k + 6))
}

/// A stored point is well formed when it has eighteen limbs and every
/// coordinate is below `p`.
pub open spec fn p384_point_reduced(p: Seq<u64>) -> bool {
    &&& p.len() == 18
    &&& p384_coord(p, 0) < p384_prime()
    &&& p384_coord(p, 1) < p384_prime()
    &&& p384_coord(p, 2) < p384_prime()
}

/// The Jacobian point that a stored point stands for: its coordinates taken
/// out of the Montgomery domain.
pub open spec fn p384_point(p: Seq<u64>) -> JacobianPoint {
    JacobianPoint {
        x: from_mont(p384_coord(p, 0), p384_r_inv(), p384_prime()),
        y: from_mont(p384_coord(p, 1), p384_r_inv(), p384_prime()),
        z: from_mont(p384_coord(p, 2), p384_r_inv(), p384_prime()),
    }
}

/// Reduced coordinates that stand for the same field element are the same
/// six limbs.
proof fn lemma_p384_coord_exact(a: Seq<u64>, b: Seq<u64>, k: int)
    requires
        a.len() == 18,
        b.len() == 18,
        0 <= k < 3,
        p384_coord(a, k) < p384_prime(),
        p384_coord(b, k) < p384_prime(),
        from_mont(p384_coord(a, k), p384_r_inv(), p384_prime()) == from_mont(
            p384_coord(b, k),
            p384_r_inv(),
            p384_prime(),
        ),
    ensures
        a.subrange(6 * k, 6 * k + 6) == b.subrange(6 * k, 6 * k + 6),
{
    crate::p384::lemma_p384_constants();
    let r = crate::limbs::radix(6);
    let ri = p384_r_inv();
    let p = p384_prime();
    let x = p384_coord(a, k);
    let y = p384_coord(b, k);
    crate::jacobian::lemma_rep_input(x, r, ri, p);
    crate::jacobian::lemma_rep_input(y, r, ri, p);
    vstd::arithmetic::div_mod::lemma_small_mod(x, p);
    vstd::arithmetic::div_mod::lemma_small_mod(y, p);
    assert(x == y);
    crate::limbs::lemma_value_injective(a.subrange(6 * k, 6 * k + 6), b.subrange(6 * k, 6 * k + 6));
}

/// Well-formed stored points that stand for the same coordinates are the same
/// eighteen limbs: whatever computes a point that meets the contract of
/// `p384_montjadd`, by whatever method, returns these limbs.
pub proof fn lemma_p384_point_exact(a: Seq<u64>, b: Seq<u64>)
    requires
        p384_point_reduced(a),
        p384_point_reduced(b),
        p384_point(a) == p384_point(b),
    ensures
        a == b,
{
    assert(p384_point(a).x == p384_point(b).x);
    assert(p384_point(a).y == p384_point(b).y);
    assert(p384_point(a).z == p384_point(b).z);
    lemma_p384_coord_exact(a, b, 0);
    lemma_p384_coord_exact(a, b, 1);
    lemma_p384_coord_exact(a, b, 2);
    assert(a =~= b) by {
        assert forall|i: int| 0 <= i < 18 implies a[i] == b[i] by {
            let k = i / 6;
            assert(a.subrange(6 * k, 6 * k + 6)[i - 6 * k] == a[i]);
            assert(b.subrange(6 * k, 6 * k + 6)[i - 6 * k] == b[i]);
        }
    }
}

/// Reads coordinate `k` of a stored point.
pub fn load_coord(p: &[u64; 18], k: usize) -> (c: [u64; 6])
    requires
        k < 3,
    ensures
        c@ == p@.subrange(6 * k as int, 6 * k as int + 6),
{
    let mut c = [0u64;6];
    let mut i: usize = 0;
    while i < 6
        invariant
            k < 3,
            i <= 6,
            forall|j: int| 0 <= j < i ==> c@[j] == p@[6 * k as int + j],
        decreases 6 - i,
    {
        c[i] = p[6 * k + i];
        i += 1;
    }
    assert(c@ =~= p@.subrange(6 * k as int, 6 * k as int + 6));
    c
}

/// Writes the three coordinates of a stored point.
pub fn store_point(p: &mut [u64; 18], x: &[u64; 6], y: &[u64; 6], z: &[u64; 6])
    ensures
        final(p)@.subrange(0, 6) == x@,
        final(p)@.subrange(6, 12) == y@,
        final(p)@.subrange(12, 18) == z@,
{
    let mut i: usize = 0;
    while i < 6
        invariant
            i <= 6,
            forall|j: int| 0 <= j < i ==> p@[j] == x@[j],
            forall|j: int| 0 <= j < i ==> p@[6 + j] == y@[j],
            forall|j: int| 0 <= j < i ==> p@[12 + j] == z@[j],
        decreases 6 - i,
    {
        p[i] = x[i];
        p[6 + i] = y[i];
        p[12 + i] = z[i];
        i += 1;
    }
    assert(p@.subrange(0, 6) =~= x@);
    assert(p@.subrange(6, 12) =~= y@);
    assert(p@.subrange(12, 18) =~= z@);
}

/// Point addition on P-384 in Montgomery-Jacobian coordinates:
/// `p3 := p1 + p2`.
///
/// The chord formulas and the tangent formulas are both evaluated every
/// time.  The result is then chosen by masks: an input where the other is
/// the point at infinity, the double where both are finite and the same
/// point, and the chord result in every other case.
pub fn p384_montjadd(p3: &mut [u64; 18], p1: &[u64; 18], p2: &[u64; 18])
    requires
        p384_point_reduced(p1@),
        p384_point_reduced(p2@),
    ensures
        p384_point_reduced(final(p3)@),
        p384_point(final(p3)@) == jacobian_add(p384_point(p1@), p384_point(p2@), p384_prime()),
{
    let f = p384_field();
    let a = Point { x: load_coord(p1, 0), y: load_coord(p1, 1), z: load_coord(p1, 2) };
    let b = Point { x: load_coord(p2, 0), y: load_coord(p2, 1), z: load_coord(p2, 2) };
    let mut t = [0u64;12];
    let r = f.point_add(&a, &b, &mut t);
    store_point(p3, &r.x, &r.y, &r.z);
}

} // verus!
