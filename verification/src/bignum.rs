//! Generic big-number primitives on limb vectors of any length: the row
//! operations that multiplication, squaring and reduction are made of.

use vstd::prelude::*;
use vstd::slice::slice_subrange;
use crate::limbs::{
    all_zero, is_zero_word, lemma_radix_add, lemma_radix_pos, lemma_radix_step,
    lemma_value_all_zero, lemma_value_bound, lemma_value_full, lemma_value_split,
    lemma_value_take_step, lemma_value_update, lemma_value_window, lemma_value_zero_all_zero,
    lemma_window_single, lemma_window_step, limbs_value, mac, or_word, radix, sbb, select_word,
};

verus! {

/// One limb of `mul_add_row`: the window equation holds for one more limb.
proof fn lemma_mac_step(
    vz: int,
    vz0: int,
    vx: int,
    k: int,
    c: int,
    r: int,
    zi: int,
    xi: int,
    lo: int,
    hi: int,
)
    requires
        vz + c * r == vz0 + vx * k,
        lo + 0x1_0000_0000_0000_0000 * hi == xi * k + zi + c,
    ensures
        (vz + lo * r) + hi * (0x1_0000_0000_0000_0000 * r) == (vz0 + zi * r) + (vx + xi * r) * k,
{
    assert((lo + 0x1_0000_0000_0000_0000 * hi) * r == lo * r + hi * (0x1_0000_0000_0000_0000 * r))
        by (nonlinear_arith);
    assert((xi * k + zi + c) * r == (xi * r) * k + zi * r + c * r) by (nonlinear_arith);
    assert((vx + xi * r) * k == vx * k + (xi * r) * k) by (nonlinear_arith);
}

/// Sets every limb of `z` to zero.
pub fn bignum_zero(z: &mut [u64])
    ensures
        final(z)@.len() == old(z)@.len(),
        all_zero(final(z)@),
        limbs_value(final(z)@) == 0,
{
    let n = z.len();
    let mut i: usize = 0;
    while i < n
        invariant
            n == z@.len(),
            z@.len() == old(z)@.len(),
            i <= n,
            forall|j: int| 0 <= j < i ==> z@[j] == 0,
        decreases n - i,
    {
        z[i] = 0;
        i += 1;
    }
    proof {
        lemma_value_all_zero(z@);
    }
}

/// Adds `k * x` into the window of `z` that starts at limb `off` and is as
/// long as `x`, and returns the word carried out of the window.  Limbs
/// outside the window are left alone.
pub fn mul_add_row(z: &mut [u64], off: usize, x: &[u64], k: u64) -> (carry: u64)
    requires
        off + x@.len() <= old(z)@.len(),
    ensures
        final(z)@.len() == old(z)@.len(),
        forall|i: int| 0 <= i < off ==> final(z)@[i] == old(z)@[i],
        forall|i: int| off + x@.len() <= i < old(z)@.len() ==> final(z)@[i] == old(z)@[i],
        limbs_value(final(z)@.subrange(off as int, off + x@.len())) + carry * radix(x@.len())
            == limbs_value(old(z)@.subrange(off as int, off + x@.len())) + limbs_value(x@) * k,
{
    let n = x.len();
    let zlen = z.len();
    let ghost z0 = z@;
    let mut carry: u64 = 0;
    let mut i: usize = 0;
    proof {
        assert(0 * radix(0) == 0) by (nonlinear_arith);
        assert(limbs_value(x@.subrange(0, 0)) * k == 0) by (nonlinear_arith)
            requires
                limbs_value(x@.subrange(0, 0)) == 0,
        ;
    }
    while i < n
        invariant
            n == x@.len(),
            off + n <= zlen,
            zlen == z@.len(),
            z@.len() == z0.len(),
            i <= n,
            forall|j: int| 0 <= j < off ==> z@[j] == z0[j],
            forall|j: int| off + i <= j < z@.len() ==> z@[j] == z0[j],
            limbs_value(z@.subrange(off as int, off + i)) + carry * radix(i as nat) == limbs_value(
                z0.subrange(off as int, off + i),
            ) + limbs_value(x@.subrange(0, i as int)) * k,
        decreases n - i,
    {
        let ghost zb = z@;
        let zi = z[off + i];
        let xi = x[i];
        let (lo, hi) = mac(xi, k, zi, carry);
        z[off + i] = lo;
        proof {
            let o = off as int;
            let ii = i as int;
            lemma_window_step(z@, o, ii);
            lemma_window_step(z0, o, ii);
            lemma_value_take_step(x@, ii);
            assert(z@.subrange(o, o + ii) =~= zb.subrange(o, o + ii));
            lemma_radix_step(i as nat);
            lemma_mac_step(
                limbs_value(zb.subrange(o, o + ii)) as int,
                limbs_value(z0.subrange(o, o + ii)) as int,
                limbs_value(x@.subrange(0, ii)) as int,
                k as int,
                carry as int,
                radix(i as nat) as int,
                zi as int,
                xi as int,
                lo as int,
                hi as int,
            );
        }
        carry = hi;
        i += 1;
    }
    proof {
        lemma_value_full(x@);
    }
    carry
}

/// One row of `bignum_mul`: the partial product takes in one more limb of
/// `y`.
proof fn lemma_mul_row_step(
    v: int,
    v1: int,
    v2: int,
    xv: int,
    yv: int,
    yj: int,
    c: int,
    w0: int,
    w1: int,
    rj: int,
    rm: int,
)
    requires
        v == xv * yv,
        v1 - v == rj * (w1 - w0),
        w1 + c * rm == w0 + xv * yj,
        v2 - v1 == (rj * rm) * c,
    ensures
        v2 == xv * (yv + yj * rj),
{
    lemma_row_accumulate(v, v1, v2, xv, yj, c, w0, w1, rj, rm);
    assert(xv * (yv + yj * rj) == xv * yv + rj * (xv * yj)) by (nonlinear_arith);
}

/// Schoolbook product: `z := x * y`, where `z` has as many limbs as `x` and
/// `y` together.
pub fn bignum_mul(z: &mut [u64], x: &[u64], y: &[u64])
    requires
        old(z)@.len() == x@.len() + y@.len(),
    ensures
        final(z)@.len() == old(z)@.len(),
        limbs_value(final(z)@) == limbs_value(x@) * limbs_value(y@),
{
    let m = x.len();
    let n = y.len();
    let zlen = z.len();
    bignum_zero(z);
    let mut j: usize = 0;
    proof {
        assert(limbs_value(x@) * limbs_value(y@.subrange(0, 0)) == 0) by (nonlinear_arith)
            requires
                limbs_value(y@.subrange(0, 0)) == 0,
        ;
    }
    while j < n
        invariant
            m == x@.len(),
            n == y@.len(),
            zlen == z@.len(),
            zlen == m + n,
            j <= n,
            forall|i: int| j + m <= i < zlen ==> z@[i] == 0,
            limbs_value(z@) == limbs_value(x@) * limbs_value(y@.subrange(0, j as int)),
        decreases n - j,
    {
        let ghost za = z@;
        let yj = y[j];
        let carry = mul_add_row(z, j, x, yj);
        let ghost zb = z@;
        z[j + m] = carry;
        proof {
            let jj = j as int;
            lemma_value_window(za, zb, jj, jj + m);
            lemma_value_update(zb, jj + m, carry);
            lemma_radix_add(j as nat, m as nat);
            lemma_value_take_step(y@, jj);
            assert(zb[jj + m] == 0);
            lemma_mul_row_step(
                limbs_value(za) as int,
                limbs_value(zb) as int,
                limbs_value(z@) as int,
                limbs_value(x@) as int,
                limbs_value(y@.subrange(0, jj)) as int,
                yj as int,
                carry as int,
                limbs_value(za.subrange(jj, jj + m)) as int,
                limbs_value(zb.subrange(jj, jj + m)) as int,
                radix(j as nat) as int,
                radix(m as nat) as int,
            );
        }
        j += 1;
    }
    proof {
        lemma_value_full(y@);
    }
}

/// One limb of `mul_sub_row`: the window equation holds for one more limb.
proof fn lemma_msub_step(
    vz: int,
    vz0: int,
    vy: int,
    k: int,
    c: int,
    r: int,
    zi: int,
    yi: int,
    plo: int,
    phi: int,
    dlo: int,
    b: int,
)
    requires
        vz - c * r == vz0 - vy * k,
        plo + 0x1_0000_0000_0000_0000 * phi == yi * k + c,
        dlo - 0x1_0000_0000_0000_0000 * b == zi - plo,
    ensures
        (vz + dlo * r) - (phi + b) * (0x1_0000_0000_0000_0000 * r) == (vz0 + zi * r) - (vy + yi
            * r) * k,
{
    assert((plo + 0x1_0000_0000_0000_0000 * phi) * r == plo * r + phi * (0x1_0000_0000_0000_0000
        * r)) by (nonlinear_arith);
    assert((yi * k + c) * r == (yi * r) * k + c * r) by (nonlinear_arith);
    assert((dlo - 0x1_0000_0000_0000_0000 * b) * r == dlo * r - b * (0x1_0000_0000_0000_0000 * r))
        by (nonlinear_arith);
    assert((zi - plo) * r == zi * r - plo * r) by (nonlinear_arith);
    assert((phi + b) * (0x1_0000_0000_0000_0000 * r) == phi * (0x1_0000_0000_0000_0000 * r) + b
        * (0x1_0000_0000_0000_0000 * r)) by (nonlinear_arith);
    assert((vy + yi * r) * k == vy * k + (yi * r) * k) by (nonlinear_arith);
}

/// The borrow of `mul_sub_row` fits in a word, and is a bit where the
/// multiplier is.
proof fn lemma_msub_borrow_fits(yi: int, k: int, c: int, zi: int, plo: int, phi: int, b: int)
    by (nonlinear_arith)
    requires
        0 <= yi <= 0xffff_ffff_ffff_ffff,
        0 <= k <= 0xffff_ffff_ffff_ffff,
        0 <= c <= 0xffff_ffff_ffff_ffff,
        0 <= zi,
        0 <= plo,
        0 <= phi,
        0 <= b <= 1,
        plo + 0x1_0000_0000_0000_0000 * phi == yi * k + c,
        b == 1 ==> plo > zi,
    ensures
        phi + b <= 0xffff_ffff_ffff_ffff,
        k <= 1 && c <= 1 ==> phi + b <= 1,
{
}

/// Subtracts `k * y` from the window of `z` that starts at limb `off` and
/// is as long as `y`, and returns the word borrowed from above the window.
/// Limbs outside the window are left alone.
pub fn mul_sub_row(z: &mut [u64], off: usize, y: &[u64], k: u64) -> (borrow: u64)
    requires
        off + y@.len() <= old(z)@.len(),
    ensures
        final(z)@.len() == old(z)@.len(),
        forall|i: int| 0 <= i < off ==> final(z)@[i] == old(z)@[i],
        forall|i: int| off + y@.len() <= i < old(z)@.len() ==> final(z)@[i] == old(z)@[i],
        limbs_value(final(z)@.subrange(off as int, off + y@.len())) - borrow * radix(y@.len())
            == limbs_value(old(z)@.subrange(off as int, off + y@.len())) - limbs_value(y@) * k,
        k <= 1 ==> borrow <= 1,
{
    let n = y.len();
    let zlen = z.len();
    let ghost z0 = z@;
    let mut borrow: u64 = 0;
    let mut i: usize = 0;
    proof {
        assert(0 * radix(0) == 0) by (nonlinear_arith);
        assert(limbs_value(y@.subrange(0, 0)) * k == 0) by (nonlinear_arith)
            requires
                limbs_value(y@.subrange(0, 0)) == 0,
        ;
    }
    while i < n
        invariant
            n == y@.len(),
            off + n <= zlen,
            zlen == z@.len(),
            z@.len() == z0.len(),
            i <= n,
            k <= 1 ==> borrow <= 1,
            forall|j: int| 0 <= j < off ==> z@[j] == z0[j],
            forall|j: int| off + i <= j < z@.len() ==> z@[j] == z0[j],
            limbs_value(z@.subrange(off as int, off + i)) - borrow * radix(i as nat) == limbs_value(
                z0.subrange(off as int, off + i),
            ) - limbs_value(y@.subrange(0, i as int)) * k,
        decreases n - i,
    {
        let ghost zb = z@;
        let zi = z[off + i];
        let yi = y[i];
        let (plo, phi) = mac(yi, k, borrow, 0);
        let (dlo, b) = sbb(zi, plo, 0);
        z[off + i] = dlo;
        proof {
            let o = off as int;
            let ii = i as int;
            lemma_window_step(z@, o, ii);
            lemma_window_step(z0, o, ii);
            lemma_value_take_step(y@, ii);
            assert(z@.subrange(o, o + ii) =~= zb.subrange(o, o + ii));
            lemma_radix_step(i as nat);
            lemma_msub_step(
                limbs_value(zb.subrange(o, o + ii)) as int,
                limbs_value(z0.subrange(o, o + ii)) as int,
                limbs_value(y@.subrange(0, ii)) as int,
                k as int,
                borrow as int,
                radix(i as nat) as int,
                zi as int,
                yi as int,
                plo as int,
                phi as int,
                dlo as int,
                b as int,
            );
            lemma_msub_borrow_fits(
                yi as int,
                k as int,
                borrow as int,
                zi as int,
                plo as int,
                phi as int,
                b as int,
            );
        }
        borrow = phi + b;
        i += 1;
    }
    proof {
        lemma_value_full(y@);
    }
    borrow
}

/// Copies `x` into `z`.
pub fn bignum_copy(z: &mut [u64], x: &[u64])
    requires
        old(z)@.len() == x@.len(),
    ensures
        final(z)@ == x@,
{
    let n = x.len();
    let mut i: usize = 0;
    while i < n
        invariant
            n == x@.len(),
            z@.len() == n,
            i <= n,
            forall|j: int| 0 <= j < i ==> z@[j] == x@[j],
        decreases n - i,
    {
        z[i] = x[i];
        i += 1;
    }
    assert(z@ =~= x@);
}

/// The products of unequal limbs of `x`, each pair counted once and taken
/// over the first `i` rows: the sum of `x[a] * x[b] * 2^(64 (a + b))` for
/// `a < i` and `a < b`.
pub open spec fn cross_sum(x: Seq<u64>, i: nat) -> nat
    decreases i,
{
    if i == 0 {
        0
    } else {
        cross_sum(x, (i - 1) as nat) + radix((2 * (i - 1) + 1) as nat) * (limbs_value(
            x.subrange(i as int, x.len() as int),
        ) * (x[i - 1] as nat))
    }
}

/// The squares of the first `i` limbs of `x`, each at twice its limb's
/// weight.
pub open spec fn diag_sum(x: Seq<u64>, i: nat) -> nat
    decreases i,
{
    if i == 0 {
        0
    } else {
        diag_sum(x, (i - 1) as nat) + (x[i - 1] as nat) * (x[i - 1] as nat) * radix(
            (2 * (i - 1)) as nat,
        )
    }
}

/// One row of a square: what the square of the limbs from `i` on adds to the
/// diagonal and to the cross products.
proof fn lemma_square_unfold(r: int, a: int, s: int, d: int, c: int, d2: int, c2: int)
    requires
        d2 == d + a * a * r,
        c2 == c + (0x1_0000_0000_0000_0000 * r) * (s * a),
    ensures
        d + 2 * c + r * ((a + 0x1_0000_0000_0000_0000 * s) * (a + 0x1_0000_0000_0000_0000 * s))
            == d2 + 2 * c2 + (0x1_0000_0000_0000_0000 * (0x1_0000_0000_0000_0000 * r)) * (s * s),
{
    let cs = 0x1_0000_0000_0000_0000 * s;
    assert((a + cs) * (a + cs) == a * a + 2 * (a * cs) + cs * cs) by (nonlinear_arith);
    assert(r * (a * a + 2 * (a * cs) + cs * cs) == a * a * r + 2 * (r * (a * cs)) + r * (cs * cs))
        by (nonlinear_arith);
    assert(r * (a * cs) == (0x1_0000_0000_0000_0000 * r) * (s * a)) by (nonlinear_arith)
        requires
            cs == 0x1_0000_0000_0000_0000 * s,
    ;
    assert(r * (cs * cs) == (0x1_0000_0000_0000_0000 * (0x1_0000_0000_0000_0000 * r)) * (s * s))
        by (nonlinear_arith)
        requires
            cs == 0x1_0000_0000_0000_0000 * s,
    ;
}

/// A square is its diagonal plus twice its cross products: after `i` rows,
/// what is still missing is the square of the limbs from `i` on.
pub proof fn lemma_square_rows(x: Seq<u64>, i: nat)
    requires
        i <= x.len(),
    ensures
        diag_sum(x, i) + 2 * cross_sum(x, i) + radix(2 * i) * (limbs_value(
            x.subrange(i as int, x.len() as int),
        ) * limbs_value(x.subrange(i as int, x.len() as int))) == limbs_value(x) * limbs_value(x),
    decreases i,
{
    let n = x.len() as int;
    if i == 0 {
        lemma_value_full(x);
        let v = limbs_value(x);
        assert(radix(0) * (v * v) == v * v) by (nonlinear_arith)
            requires
                radix(0) == 1,
        ;
    } else {
        let j = (i - 1) as nat;
        lemma_square_rows(x, j);
        let sj = x.subrange(j as int, n);
        lemma_value_split(sj, 1);
        lemma_window_single(x, j as int);
        assert(sj.subrange(0, 1) =~= x.subrange(j as int, j as int + 1));
        assert(sj.subrange(1, n - j) =~= x.subrange(i as int, n));
        assert(radix(1) == 0x1_0000_0000_0000_0000);
        lemma_radix_step(2 * j);
        lemma_radix_step(2 * j + 1);
        let s = limbs_value(x.subrange(i as int, n)) as int;
        let a = x[j as int] as int;
        assert(limbs_value(sj) == a + 0x1_0000_0000_0000_0000 * s);
        lemma_square_unfold(
            radix(2 * j) as int,
            a,
            s,
            diag_sum(x, j) as int,
            cross_sum(x, j) as int,
            diag_sum(x, i) as int,
            cross_sum(x, i) as int,
        );
    }
}

/// A row added at a limb offset, its carry stored above the window, adds
/// the row's product at that offset.
proof fn lemma_row_accumulate(
    v: int,
    v1: int,
    v2: int,
    xv: int,
    k: int,
    c: int,
    w0: int,
    w1: int,
    rj: int,
    rm: int,
)
    requires
        v1 - v == rj * (w1 - w0),
        w1 + c * rm == w0 + xv * k,
        v2 - v1 == (rj * rm) * c,
    ensures
        v2 == v + rj * (xv * k),
{
    assert(w1 - w0 == xv * k - c * rm);
    assert(rj * (xv * k - c * rm) == rj * (xv * k) - (rj * rm) * c) by (nonlinear_arith);
}

/// Two limbs of the doubling pass of `bignum_sqr`: twice the cross products
/// plus the square of one more limb.
proof fn lemma_double_step(
    v: int,
    v0: int,
    d: int,
    c: int,
    r: int,
    a0: int,
    a1: int,
    xi: int,
    slo: int,
    shi: int,
    lo0: int,
    c0: int,
    lo1: int,
    c1: int,
)
    requires
        v + c * r == 2 * v0 + d,
        slo + 0x1_0000_0000_0000_0000 * shi == xi * xi,
        lo0 + 0x1_0000_0000_0000_0000 * c0 == 2 * a0 + slo + c,
        lo1 + 0x1_0000_0000_0000_0000 * c1 == 2 * a1 + shi + c0,
    ensures
        (v + lo0 * r + lo1 * (0x1_0000_0000_0000_0000 * r)) + c1 * (0x1_0000_0000_0000_0000 * (
        0x1_0000_0000_0000_0000 * r)) == 2 * (v0 + a0 * r + a1 * (0x1_0000_0000_0000_0000 * r)) + (d
            + xi * xi * r),
{
    let cr = 0x1_0000_0000_0000_0000 * r;
    assert((lo0 + 0x1_0000_0000_0000_0000 * c0) * r == lo0 * r + c0 * cr) by (nonlinear_arith)
        requires
            cr == 0x1_0000_0000_0000_0000 * r,
    ;
    assert((2 * a0 + slo + c) * r == 2 * (a0 * r) + slo * r + c * r) by (nonlinear_arith);
    assert((lo1 + 0x1_0000_0000_0000_0000 * c1) * cr == lo1 * cr + c1 * (0x1_0000_0000_0000_0000
        * cr)) by (nonlinear_arith);
    assert((2 * a1 + shi + c0) * cr == 2 * (a1 * cr) + shi * cr + c0 * cr) by (nonlinear_arith);
    assert((slo + 0x1_0000_0000_0000_0000 * shi) * r == slo * r + shi * cr) by (nonlinear_arith)
        requires
            cr == 0x1_0000_0000_0000_0000 * r,
    ;
    assert((xi * xi) * r == xi * xi * r);
}

/// Square: `z := x^2`, where `z` has twice as many limbs as `x`.  Each
/// product of two different limbs is formed once and doubled, so the work is
/// about half that of a general product.
pub fn bignum_sqr(z: &mut [u64], x: &[u64])
    requires
        old(z)@.len() == 2 * x@.len(),
    ensures
        final(z)@.len() == old(z)@.len(),
        limbs_value(final(z)@) == limbs_value(x@) * limbs_value(x@),
{
    let n = x.len();
    let zlen = z.len();
    bignum_zero(z);
    // the products of unequal limbs, each once
    let mut i: usize = 0;
    while i < n
        invariant
            n == x@.len(),
            zlen == z@.len(),
            zlen == 2 * n,
            i <= n,
            forall|j: int| n + i <= j < zlen ==> z@[j] == 0,
            limbs_value(z@) == cross_sum(x@, i as nat),
        decreases n - i,
    {
        let ghost za = z@;
        let xi = x[i];
        let row = slice_subrange(x, i + 1, n);
        let carry = mul_add_row(z, 2 * i + 1, row, xi);
        let ghost zb = z@;
        z[n + i] = carry;
        proof {
            let ii = i as int;
            let nn = n as int;
            let len = (n - i - 1) as nat;
            lemma_value_window(za, zb, 2 * ii + 1, nn + ii);
            lemma_value_update(zb, nn + ii, carry);
            lemma_radix_add((2 * i + 1) as nat, len);
            assert(zb[nn + ii] == 0);
            lemma_row_accumulate(
                limbs_value(za) as int,
                limbs_value(zb) as int,
                limbs_value(z@) as int,
                limbs_value(row@) as int,
                xi as int,
                carry as int,
                limbs_value(za.subrange(2 * ii + 1, nn + ii)) as int,
                limbs_value(zb.subrange(2 * ii + 1, nn + ii)) as int,
                radix((2 * i + 1) as nat) as int,
                radix(len) as int,
            );
        }
        i += 1;
    }
    // double them and add the squares of the limbs
    let ghost zc = z@;
    let mut c: u64 = 0;
    let mut i: usize = 0;
    proof {
        assert(0 * radix(0) == 0) by (nonlinear_arith);
    }
    while i < n
        invariant
            n == x@.len(),
            zlen == z@.len(),
            zlen == 2 * n,
            zc.len() == zlen,
            i <= n,
            c <= 2,
            forall|j: int| 2 * i <= j < zlen ==> z@[j] == zc[j],
            limbs_value(z@.subrange(0, 2 * i)) + c * radix((2 * i) as nat) == 2 * limbs_value(
                zc.subrange(0, 2 * i),
            ) + diag_sum(x@, i as nat),
        decreases n - i,
    {
        let ghost zb = z@;
        let xi = x[i];
        let (slo, shi) = mac(xi, xi, 0, 0);
        let a0 = z[2 * i];
        let a1 = z[2 * i + 1];
        let t0: u128 = (a0 as u128) + (a0 as u128) + (slo as u128) + (c as u128);
        let lo0: u64 = (t0 % 0x1_0000_0000_0000_0000) as u64;
        let c0: u64 = (t0 / 0x1_0000_0000_0000_0000) as u64;
        let t1: u128 = (a1 as u128) + (a1 as u128) + (shi as u128) + (c0 as u128);
        let lo1: u64 = (t1 % 0x1_0000_0000_0000_0000) as u64;
        let c1: u64 = (t1 / 0x1_0000_0000_0000_0000) as u64;
        z[2 * i] = lo0;
        z[2 * i + 1] = lo1;
        proof {
            let ii = i as int;
            lemma_value_take_step(z@, 2 * ii);
            lemma_value_take_step(z@, 2 * ii + 1);
            lemma_value_take_step(zc, 2 * ii);
            lemma_value_take_step(zc, 2 * ii + 1);
            assert(z@.subrange(0, 2 * ii) =~= zb.subrange(0, 2 * ii));
            lemma_radix_step((2 * i) as nat);
            lemma_radix_step((2 * i + 1) as nat);
            lemma_double_step(
                limbs_value(zb.subrange(0, 2 * ii)) as int,
                limbs_value(zc.subrange(0, 2 * ii)) as int,
                diag_sum(x@, i as nat) as int,
                c as int,
                radix((2 * i) as nat) as int,
                a0 as int,
                a1 as int,
                xi as int,
                slo as int,
                shi as int,
                lo0 as int,
                c0 as int,
                lo1 as int,
                c1 as int,
            );
        }
        c = c1;
        i += 1;
    }
    proof {
        let nn = n as nat;
        lemma_value_full(z@);
        lemma_value_full(zc);
        lemma_square_rows(x@, nn);
        let e = x@.subrange(n as int, n as int);
        assert(limbs_value(e) == 0);
        assert(radix(2 * nn) * (limbs_value(e) * limbs_value(e)) == 0) by (nonlinear_arith)
            requires
                limbs_value(e) == 0,
        ;
        lemma_value_bound(x@);
        lemma_radix_add(nn, nn);
        lemma_radix_pos(2 * nn);
        let xv = limbs_value(x@) as int;
        let rn = radix(nn) as int;
        assert(xv * xv < rn * rn) by (nonlinear_arith)
            requires
                0 <= xv < rn,
        ;
        let r2 = radix(2 * nn) as int;
        assert(c == 0) by {
            if c >= 1 {
                assert(c * r2 >= r2) by (nonlinear_arith)
                    requires
                        c >= 1,
                        r2 > 0,
                ;
            }
        }
    }
}

/// Constant-time conditional copy: `z := x` when `flag` is 1, and `z` is
/// left as it is when `flag` is 0.  Every limb is read and written either
/// way.
pub fn bignum_select(z: &mut [u64], flag: u64, x: &[u64])
    requires
        old(z)@.len() == x@.len(),
        flag <= 1,
    ensures
        final(z)@ == if flag == 1 { x@ } else { old(z)@ },
{
    let n = x.len();
    let ghost z0 = z@;
    let mut i: usize = 0;
    while i < n
        invariant
            n == x@.len(),
            z@.len() == n,
            z0.len() == n,
            i <= n,
            flag <= 1,
            forall|j: int| 0 <= j < i ==> z@[j] == if flag == 1 { x@[j] } else { z0[j] },
            forall|j: int| i <= j < n ==> z@[j] == z0[j],
        decreases n - i,
    {
        let v = select_word(flag, x[i], z[i]);
        z[i] = v;
        i += 1;
    }
    proof {
        if flag == 1 {
            assert(z@ =~= x@);
        } else {
            assert(z@ =~= z0);
        }
    }
}

/// Constant-time zero test: 1 when `x` is zero and 0 when it is not, as a
/// word that can go straight into `bignum_select`.
pub fn bignum_is_zero(x: &[u64]) -> (r: u64)
    ensures
        r == if limbs_value(x@) == 0 { 1u64 } else { 0u64 },
{
    let n = x.len();
    let mut acc: u64 = 0;
    let mut i: usize = 0;
    while i < n
        invariant
            n == x@.len(),
            i <= n,
            acc == 0 <==> (forall|j: int| 0 <= j < i ==> x@[j] == 0),
        decreases n - i,
    {
        acc = or_word(acc, x[i]);
        i += 1;
    }
    proof {
        if acc == 0 {
            lemma_value_all_zero(x@);
        } else {
            if limbs_value(x@) == 0 {
                lemma_value_zero_all_zero(x@);
            }
        }
    }
    is_zero_word(acc)
}

/// Karatsuba's identity: the middle term of a square from the squares of
/// the halves and of their difference.
proof fn lemma_ksqr_middle(l: int, h: int, d: int, r8: int)
    requires
        d == l - h || d == h - l,
    ensures
        l * l + h * h - d * d == 2 * (l * h),
        (l + r8 * h) * (l + r8 * h) == l * l + (r8 * r8) * (h * h) + r8 * (l * l + h * h - d * d),
{
    assert((l - h) * (l - h) == l * l + h * h - 2 * (l * h)) by (nonlinear_arith);
    assert((h - l) * (h - l) == l * l + h * h - 2 * (l * h)) by (nonlinear_arith);
    assert((l + r8 * h) * (l + r8 * h) == l * l + (r8 * r8) * (h * h) + r8 * (2 * (l * h)))
        by (nonlinear_arith);
}

/// The middle term, taken off the scratch value and carried into the top
/// limbs, adds `2^512` times itself to the value.
proof fn lemma_ksqr_total(
    v0: int,
    v1: int,
    v2: int,
    w0: int,
    w1: int,
    u0: int,
    u1: int,
    tv: int,
    m: int,
    top: int,
    b3: int,
    delta: int,
    c: int,
    r8: int,
    r16: int,
    r24: int,
    r32: int,
)
    requires
        tv == top * r16 - m,
        v1 - v0 == r8 * (w1 - w0),
        w1 - b3 * r16 == w0 - tv,
        delta == top - b3,
        v2 - v1 == r24 * (u1 - u0),
        u1 + c * r8 == u0 + delta,
        r24 == r8 * r16,
        r32 == r24 * r8,
    ensures
        v2 + c * r32 == v0 + r8 * m,
{
    assert(w1 - w0 == m - delta * r16) by (nonlinear_arith)
        requires
            tv == top * r16 - m,
            w1 - b3 * r16 == w0 - tv,
            delta == top - b3,
    ;
    assert(r8 * (m - delta * r16) == r8 * m - delta * r24) by (nonlinear_arith)
        requires
            r24 == r8 * r16,
    ;
    assert(u1 - u0 == delta - c * r8);
    assert(r24 * (delta - c * r8) == delta * r24 - c * r32) by (nonlinear_arith)
        requires
            r32 == r24 * r8,
    ;
}

/// Square of a number of sixteen limbs by Karatsuba's method:
/// `z := x^2`, with `z` of thirty-two limbs.
///
/// With `x = l + 2^512 h`, the squares `l^2` and `h^2` go to the two halves
/// of `z`, and the middle term `2 l h` is had as `l^2 + h^2 - (l - h)^2`
/// from one more square of half the size.  The buffer `t` is scratch space:
/// what it holds afterwards is not specified.
pub fn bignum_ksqr_16_32(z: &mut [u64], x: &[u64], t: &mut [u64; 24])
    requires
        old(z)@.len() == 32,
        x@.len() == 16,
    ensures
        final(z)@.len() == 32,
        limbs_value(final(z)@) == limbs_value(x@) * limbs_value(x@),
{
    let xl = slice_subrange(x, 0, 8);
    let xh = slice_subrange(x, 8, 16);
    let ghost l = limbs_value(xl@) as int;
    let ghost h = limbs_value(xh@) as int;
    let ghost r8 = radix(8) as int;
    let ghost r16 = radix(16) as int;
    // the squares of the two halves, side by side in z
    let (zl, zh) = z.split_at_mut(16);
    bignum_sqr(zl, xl);
    bignum_sqr(zh, xh);
    let ghost z0 = z@;
    proof {
        lemma_value_split(z0, 16);
        assert(z0.subrange(0, 16) =~= zl@);
        assert(z0.subrange(16, 32) =~= zh@);
    }
    // the absolute difference of the halves, in the low part of t
    let (d, sq) = t.split_at_mut(8);
    bignum_copy(d, xl);
    let ghost da = d@;
    let b = mul_sub_row(d, 0, xh, 1);
    let ghost db = d@;
    let (e, rest) = sq.split_at_mut(8);
    bignum_copy(e, xh);
    let ghost ea = e@;
    let be = mul_sub_row(e, 0, xl, 1);
    let ghost eb = e@;
    bignum_select(d, b, e);
    let ghost dv = limbs_value(d@) as int;
    proof {
        lemma_radix_pos(8);
        lemma_value_full(da);
        lemma_value_full(db);
        lemma_value_full(ea);
        lemma_value_full(eb);
        lemma_value_bound(db);
        lemma_value_bound(eb);
        lemma_value_bound(xl@);
        lemma_value_bound(xh@);
        assert(h * 1 == h);
        assert(l * 1 == l);
        assert(b * r8 == if b == 1 { r8 } else { 0 });
        assert(be * r8 == if be == 1 { r8 } else { 0 });
        assert(dv == l - h || dv == h - l);
    }
    // its square, in the high part of t, turned into the middle term
    bignum_sqr(sq, d);
    let ghost sqa = sq@;
    let b1 = mul_sub_row(sq, 0, slice_subrange(z, 0, 16), 1);
    let ghost sqb = sq@;
    let b2 = mul_sub_row(sq, 0, slice_subrange(z, 16, 32), 1);
    let ghost m = l * l + h * h - dv * dv;
    let ghost tv = limbs_value(sq@) as int;
    proof {
        lemma_value_full(sqa);
        lemma_value_full(sqb);
        lemma_value_full(sq@);
        lemma_value_bound(sq@);
        lemma_value_bound(sqb);
        lemma_radix_pos(16);
        assert((l * l) * 1 == l * l);
        assert((h * h) * 1 == h * h);
        assert(b1 * r16 == if b1 == 1 { r16 } else { 0 });
        assert(b2 * r16 == if b2 == 1 { r16 } else { 0 });
        lemma_ksqr_middle(l, h, dv, r8);
        assert(l * h >= 0) by (nonlinear_arith)
            requires
                l >= 0,
                h >= 0,
        ;
        assert(limbs_value(sqb) - b1 * r16 == limbs_value(sqa) - l * l);
        assert(limbs_value(sq@) - b2 * r16 == limbs_value(sqb) - h * h);
        assert((b1 + b2) * r16 == b1 * r16 + b2 * r16) by (nonlinear_arith);
        assert(tv == (b1 + b2) * r16 - m);
    }
    // add the middle term at limb 8
    let b3 = mul_sub_row(z, 8, sq, 1);
    let ghost z1 = z@;
    proof {
        lemma_value_bound(z0.subrange(8, 24));
        lemma_value_bound(z1.subrange(8, 24));
        assert(tv * 1 == tv);
        assert(b3 * r16 == if b3 == 1 { r16 } else { 0 });
        assert(b1 + b2 >= b3);
    }
    let delta = b1 + b2 - b3;
    let unit: [u64; 8] = [1, 0, 0, 0, 0, 0, 0, 0];
    let c = mul_add_row(z, 24, &unit, delta);
    proof {
        let r24 = radix(24) as int;
        let r32 = radix(32) as int;
        assert(limbs_value(unit@) == 1) by {
            lemma_value_split(unit@, 1);
            lemma_window_single(unit@, 0);
            let tail = unit@.subrange(1, 8);
            assert(all_zero(tail)) by {
                assert forall|j: int| 0 <= j < tail.len() implies tail[j] == 0 by {
                    assert(tail[j] == unit@[j + 1]);
                }
            }
            lemma_value_all_zero(tail);
            assert(radix(1) * 0 == 0);
        }
        assert(1 * delta == delta);
        lemma_value_window(z0, z1, 8, 24);
        lemma_value_window(z1, z@, 24, 32);
        lemma_radix_add(8, 16);
        lemma_radix_add(24, 8);
        lemma_radix_add(16, 16);
        lemma_radix_add(8, 8);
        lemma_ksqr_total(
            limbs_value(z0) as int,
            limbs_value(z1) as int,
            limbs_value(z@) as int,
            limbs_value(z0.subrange(8, 24)) as int,
            limbs_value(z1.subrange(8, 24)) as int,
            limbs_value(z1.subrange(24, 32)) as int,
            limbs_value(z@.subrange(24, 32)) as int,
            tv,
            m,
            (b1 + b2) as int,
            b3 as int,
            delta as int,
            c as int,
            r8,
            r16,
            r24,
            r32,
        );
        lemma_value_split(x@, 8);
        lemma_value_bound(x@);
        lemma_value_bound(z@);
        lemma_radix_pos(32);
        let xv = limbs_value(x@) as int;
        assert(xv == l + r8 * h);
        assert(xv * xv == l * l + (r8 * r8) * (h * h) + r8 * m);
        assert(limbs_value(z0) == l * l + r16 * (h * h));
        assert(xv * xv < r16 * r16) by (nonlinear_arith)
            requires
                0 <= xv < r16,
        ;
        assert(c == 0) by {
            if c >= 1 {
                assert(c * r32 >= r32) by (nonlinear_arith)
                    requires
                        c >= 1,
                        r32 > 0,
                ;
            }
        }
    }
}

} // verus!
