//! Limb vectors: fixed-width unsigned integers held as machine words,
//! least significant word first, and the single-word primitives that every
//! kernel is built from.

use vstd::prelude::*;

verus! {

/// The weight of limb `i`, that is `2^(64 i)`.
pub open spec fn radix(i: nat) -> nat
    decreases i,
{
    if i == 0 {
        1
    } else {
        0x1_0000_0000_0000_0000 * radix((i - 1) as nat)
    }
}

/// The integer that a little-endian limb vector stands for.
pub open spec fn limbs_value(s: Seq<u64>) -> nat
    decreases s.len(),
{
    if s.len() == 0 {
        0
    } else {
        limbs_value(s.drop_last()) + (s.last() as nat) * radix((s.len() - 1) as nat)
    }
}

/// `true` when every limb is zero.
pub open spec fn all_zero(s: Seq<u64>) -> bool {
    forall|i: int| 0 <= i < s.len() ==> s[i] == 0
}

/// Every limb weight is positive.
pub proof fn lemma_radix_pos(i: nat)
    ensures
        radix(i) > 0,
    decreases i,
{
    if i > 0 {
        lemma_radix_pos((i - 1) as nat);
    }
}

/// The next limb weight is `2^64` times this one.
pub proof fn lemma_radix_step(i: nat)
    ensures
        radix(i + 1) == 0x1_0000_0000_0000_0000 * radix(i),
{
}

/// Limb weights multiply as their indices add.
pub proof fn lemma_radix_add(a: nat, b: nat)
    ensures
        radix(a + b) == radix(a) * radix(b),
    decreases b,
{
    if b == 0 {
        assert(radix(a) * 1 == radix(a)) by (nonlinear_arith);
    } else {
        lemma_radix_add(a, (b - 1) as nat);
        let x = radix(a);
        let y = radix((b - 1) as nat);
        assert(radix(a + b) == 0x1_0000_0000_0000_0000 * radix((a + b - 1) as nat));
        assert(0x1_0000_0000_0000_0000 * (x * y) == x * (0x1_0000_0000_0000_0000 * y))
            by (nonlinear_arith);
    }
}

/// A limb vector of `n` limbs is below `2^(64 n)`.
pub proof fn lemma_value_bound(s: Seq<u64>)
    ensures
        limbs_value(s) < radix(s.len()),
    decreases s.len(),
{
    if s.len() > 0 {
        lemma_value_bound(s.drop_last());
        let r = radix((s.len() - 1) as nat);
        let l = s.last() as nat;
        assert(l * r <= 0xffff_ffff_ffff_ffff * r) by (nonlinear_arith)
            requires
                l <= 0xffff_ffff_ffff_ffff,
                r >= 0,
        ;
    }
}

/// Taking one more limb adds that limb at its weight.
pub proof fn lemma_value_take_step(s: Seq<u64>, i: int)
    requires
        0 <= i < s.len(),
    ensures
        limbs_value(s.subrange(0, i + 1)) == limbs_value(s.subrange(0, i)) + (s[i] as nat) * radix(
            i as nat,
        ),
{
    let t = s.subrange(0, i + 1);
    assert(t.drop_last() =~= s.subrange(0, i));
}

/// The window over all of a vector is the vector.
pub proof fn lemma_value_full(s: Seq<u64>)
    ensures
        s.subrange(0, s.len() as int) == s,
{
    assert(s.subrange(0, s.len() as int) =~= s);
}

/// The value splits at any limb boundary into a low part and a shifted
/// high part.
pub proof fn lemma_value_split(s: Seq<u64>, k: int)
    requires
        0 <= k <= s.len(),
    ensures
        limbs_value(s) == limbs_value(s.subrange(0, k)) + radix(k as nat) * limbs_value(
            s.subrange(k, s.len() as int),
        ),
    decreases s.len(),
{
    let n = s.len() as int;
    if k == n {
        assert(s.subrange(0, k) =~= s);
        assert(s.subrange(k, n).len() == 0);
        assert(radix(k as nat) * 0 == 0) by (nonlinear_arith);
    } else {
        let d = s.drop_last();
        lemma_value_split(d, k);
        assert(d.subrange(0, k) =~= s.subrange(0, k));
        let hi = s.subrange(k, n);
        assert(hi.drop_last() =~= d.subrange(k, n - 1));
        assert(hi.last() == s.last());
        lemma_radix_add(k as nat, (n - 1 - k) as nat);
        let rk = radix(k as nat);
        let rh = radix((n - 1 - k) as nat);
        let hv = limbs_value(d.subrange(k, n - 1));
        let l = s.last() as nat;
        assert(limbs_value(hi) == hv + l * rh);
        assert(rk * (hv + l * rh) == rk * hv + l * (rk * rh)) by (nonlinear_arith);
    }
}

/// Two vectors that agree outside the window `[a, b)` differ in value by
/// the difference of their windows, shifted to the window's place.
pub proof fn lemma_value_window(s: Seq<u64>, t: Seq<u64>, a: int, b: int)
    requires
        s.len() == t.len(),
        0 <= a <= b <= s.len(),
        forall|i: int| 0 <= i < a ==> s[i] == t[i],
        forall|i: int| b <= i < s.len() ==> s[i] == t[i],
    ensures
        limbs_value(t) - limbs_value(s) == radix(a as nat) * (limbs_value(t.subrange(a, b))
            - limbs_value(s.subrange(a, b))),
{
    let n = s.len() as int;
    lemma_value_split(s, a);
    lemma_value_split(t, a);
    assert(s.subrange(0, a) =~= t.subrange(0, a));
    let sh = s.subrange(a, n);
    let th = t.subrange(a, n);
    lemma_value_split(sh, b - a);
    lemma_value_split(th, b - a);
    assert(sh.subrange(0, b - a) =~= s.subrange(a, b));
    assert(th.subrange(0, b - a) =~= t.subrange(a, b));
    assert(sh.subrange(b - a, n - a) =~= th.subrange(b - a, n - a));
    let ra = radix(a as nat) as int;
    let rb = radix((b - a) as nat) as int;
    let top = limbs_value(sh.subrange(b - a, n - a)) as int;
    let sw = limbs_value(s.subrange(a, b)) as int;
    let tw = limbs_value(t.subrange(a, b)) as int;
    assert(ra * (tw + rb * top) - ra * (sw + rb * top) == ra * (tw - sw)) by (nonlinear_arith);
}

/// The lowest limb is the value modulo `2^64`.
pub proof fn lemma_value_low_limb(s: Seq<u64>)
    requires
        s.len() > 0,
    ensures
        limbs_value(s) % 0x1_0000_0000_0000_0000 == s[0] as nat,
{
    lemma_value_split(s, 1);
    let lo = s.subrange(0, 1);
    assert(lo.drop_last().len() == 0);
    assert(limbs_value(lo.drop_last()) == 0);
    assert(lo.last() == s[0]);
    assert(limbs_value(lo) == s[0] as nat) by {
        assert((s[0] as nat) * radix(0) == s[0] as nat) by (nonlinear_arith)
            requires
                radix(0) == 1,
        ;
    }
    let h = limbs_value(s.subrange(1, s.len() as int)) as int;
    assert(radix(1) == 0x1_0000_0000_0000_0000);
    assert(limbs_value(s) == s[0] + 0x1_0000_0000_0000_0000 * h) by {
        assert(radix(1) * h == 0x1_0000_0000_0000_0000 * h);
    }
    let x = limbs_value(s) as int;
    let r = s[0] as int;
    assert(h * 0x1_0000_0000_0000_0000 == 0x1_0000_0000_0000_0000 * h) by (nonlinear_arith);
    assert(0 <= r < 0x1_0000_0000_0000_0000);
    vstd::arithmetic::div_mod::lemma_fundamental_div_mod_converse_mod(
        x,
        0x1_0000_0000_0000_0000,
        h,
        r,
    );
}

/// A vector of zero limbs has value zero.
pub proof fn lemma_value_all_zero(s: Seq<u64>)
    requires
        all_zero(s),
    ensures
        limbs_value(s) == 0,
    decreases s.len(),
{
    if s.len() > 0 {
        lemma_value_all_zero(s.drop_last());
        assert(s.last() == 0);
        assert(0 * radix((s.len() - 1) as nat) == 0) by (nonlinear_arith);
    }
}

/// Only the all-zero vector has value zero.
pub proof fn lemma_value_zero_all_zero(s: Seq<u64>)
    requires
        limbs_value(s) == 0,
    ensures
        all_zero(s),
    decreases s.len(),
{
    if s.len() > 0 {
        let r = radix((s.len() - 1) as nat);
        let l = s.last() as nat;
        lemma_radix_pos((s.len() - 1) as nat);
        assert(l * r >= 0) by (nonlinear_arith)
            requires
                l >= 0,
                r >= 0,
        ;
        assert(l == 0) by (nonlinear_arith)
            requires
                l * r == 0,
                r > 0,
                l >= 0,
        ;
        lemma_value_zero_all_zero(s.drop_last());
        assert forall|i: int| 0 <= i < s.len() implies s[i] == 0 by {
            if i < s.len() - 1 {
                assert(s.drop_last()[i] == s[i]);
            }
        }
    }
}

/// Vectors of one length with one value are the same vector.
pub proof fn lemma_value_injective(s: Seq<u64>, t: Seq<u64>)
    requires
        s.len() == t.len(),
        limbs_value(s) == limbs_value(t),
    ensures
        s == t,
    decreases s.len(),
{
    if s.len() == 0 {
        assert(s =~= t);
    } else {
        let n = (s.len() - 1) as nat;
        let r = radix(n) as int;
        lemma_radix_pos(n);
        lemma_value_bound(s.drop_last());
        lemma_value_bound(t.drop_last());
        let a = limbs_value(s.drop_last()) as int;
        let b = limbs_value(t.drop_last()) as int;
        let x = s.last() as int;
        let y = t.last() as int;
        assert(x == y) by (nonlinear_arith)
            requires
                a + x * r == b + y * r,
                0 <= a < r,
                0 <= b < r,
        ;
        lemma_value_injective(s.drop_last(), t.drop_last());
        assert(s =~= t) by {
            assert forall|i: int| 0 <= i < s.len() implies s[i] == t[i] by {
                if i < s.len() - 1 {
                    assert(s.drop_last()[i] == s[i]);
                    assert(t.drop_last()[i] == t[i]);
                }
            }
        }
    }
}

/// Widening a window by one limb adds that limb at its weight within the
/// window.
pub proof fn lemma_window_step(s: Seq<u64>, off: int, i: int)
    requires
        0 <= off,
        0 <= i,
        off + i < s.len(),
    ensures
        limbs_value(s.subrange(off, off + i + 1)) == limbs_value(s.subrange(off, off + i)) + (s[off
            + i] as nat) * radix(i as nat),
{
    let t = s.subrange(off, off + i + 1);
    assert(t.drop_last() =~= s.subrange(off, off + i));
    assert(t.last() == s[off + i]);
}

/// A window of one limb has that limb's value.
pub proof fn lemma_window_single(s: Seq<u64>, a: int)
    requires
        0 <= a < s.len(),
    ensures
        limbs_value(s.subrange(a, a + 1)) == s[a] as nat,
{
    let t = s.subrange(a, a + 1);
    assert(t.drop_last().len() == 0);
    assert(limbs_value(t.drop_last()) == 0);
    assert(t.last() == s[a]);
    assert((s[a] as nat) * radix(0) == s[a] as nat) by (nonlinear_arith)
        requires
            radix(0) == 1,
    ;
}

/// Writing one limb changes the value by the change of that limb at its
/// weight.
pub proof fn lemma_value_update(s: Seq<u64>, a: int, v: u64)
    requires
        0 <= a < s.len(),
    ensures
        limbs_value(s.update(a, v)) - limbs_value(s) == radix(a as nat) * (v - s[a]),
{
    let t = s.update(a, v);
    lemma_value_window(s, t, a, a + 1);
    lemma_window_single(s, a);
    lemma_window_single(t, a);
}

/// The value of a vector of four limbs, written out.
pub proof fn lemma_value_4(s: Seq<u64>)
    requires
        s.len() == 4,
    ensures
        limbs_value(s) == s[0] + 0x1_0000_0000_0000_0000 * s[1]
            + 0x1_0000_0000_0000_0000_0000_0000_0000_0000nat * s[2]
            + 0x1_0000_0000_0000_0000_0000_0000_0000_0000_0000_0000_0000_0000nat * s[3],
{
    lemma_value_full(s);
    lemma_value_take_step(s, 0);
    lemma_value_take_step(s, 1);
    lemma_value_take_step(s, 2);
    lemma_value_take_step(s, 3);
    assert(limbs_value(s.subrange(0, 0)) == 0);
    lemma_radix_values();
    let r0 = radix(0) as int;
    let r1 = radix(1) as int;
    let r2 = radix(2) as int;
    let r3 = radix(3) as int;
    assert(s[0] * r0 == s[0]) by (nonlinear_arith)
        requires
            r0 == 1,
    ;
    assert(s[1] * r1 == 0x1_0000_0000_0000_0000 * s[1]) by (nonlinear_arith)
        requires
            r1 == 0x1_0000_0000_0000_0000,
    ;
    assert(s[2] * r2 == 0x1_0000_0000_0000_0000_0000_0000_0000_0000nat * s[2]) by (nonlinear_arith)
        requires
            r2 == 0x1_0000_0000_0000_0000_0000_0000_0000_0000nat,
    ;
    assert(s[3] * r3 == 0x1_0000_0000_0000_0000_0000_0000_0000_0000_0000_0000_0000_0000nat * s[3])
        by (nonlinear_arith)
        requires
            r3 == 0x1_0000_0000_0000_0000_0000_0000_0000_0000_0000_0000_0000_0000nat,
    ;
}

/// The value of a vector of six limbs, written out.
pub proof fn lemma_value_6(s: Seq<u64>)
    requires
        s.len() == 6,
    ensures
        limbs_value(s) == s[0] + 0x1_0000_0000_0000_0000 * s[1]
            + 0x1_0000_0000_0000_0000_0000_0000_0000_0000nat * s[2]
            + 0x1_0000_0000_0000_0000_0000_0000_0000_0000_0000_0000_0000_0000nat * s[3]
            + 0x1_0000_0000_0000_0000_0000_0000_0000_0000_0000_0000_0000_0000_0000_0000_0000_0000nat
            * s[4]
            + 0x1_0000_0000_0000_0000_0000_0000_0000_0000_0000_0000_0000_0000_0000_0000_0000_0000_0000_0000_0000_0000nat
            * s[5],
{
    lemma_value_split(s, 4);
    lemma_value_4(s.subrange(0, 4));
    let h = s.subrange(4, 6);
    lemma_value_full(h);
    lemma_value_take_step(h, 0);
    lemma_value_take_step(h, 1);
    assert(limbs_value(h.subrange(0, 0)) == 0);
    lemma_radix_values();
    let r0 = radix(0) as int;
    let r1 = radix(1) as int;
    let r4 = radix(4) as int;
    assert(h[0] == s[4]);
    assert(h[1] == s[5]);
    assert(s[4] * r0 == s[4]) by (nonlinear_arith)
        requires
            r0 == 1,
    ;
    assert(s[5] * r1 == 0x1_0000_0000_0000_0000 * s[5]) by (nonlinear_arith)
        requires
            r1 == 0x1_0000_0000_0000_0000,
    ;
    let hv = limbs_value(h) as int;
    assert(hv == s[4] + 0x1_0000_0000_0000_0000 * s[5]);
    assert(r4 * hv
        == 0x1_0000_0000_0000_0000_0000_0000_0000_0000_0000_0000_0000_0000_0000_0000_0000_0000nat
        * s[4]
        + 0x1_0000_0000_0000_0000_0000_0000_0000_0000_0000_0000_0000_0000_0000_0000_0000_0000_0000_0000_0000_0000nat
        * s[5]) by (nonlinear_arith)
        requires
            hv == s[4] + 0x1_0000_0000_0000_0000 * s[5],
            r4
                == 0x1_0000_0000_0000_0000_0000_0000_0000_0000_0000_0000_0000_0000_0000_0000_0000_0000nat,
    ;
}

/// The first few limb weights as numbers.
pub proof fn lemma_radix_values()
    ensures
        radix(0) == 1,
        radix(1) == 0x1_0000_0000_0000_0000,
        radix(2) == 0x1_0000_0000_0000_0000_0000_0000_0000_0000nat,
        radix(3) == 0x1_0000_0000_0000_0000_0000_0000_0000_0000_0000_0000_0000_0000nat,
        radix(4)
            == 0x1_0000_0000_0000_0000_0000_0000_0000_0000_0000_0000_0000_0000_0000_0000_0000_0000nat,
        radix(5)
            == 0x1_0000_0000_0000_0000_0000_0000_0000_0000_0000_0000_0000_0000_0000_0000_0000_0000_0000_0000_0000_0000nat,
        radix(6)
            == 0x1_0000_0000_0000_0000_0000_0000_0000_0000_0000_0000_0000_0000_0000_0000_0000_0000_0000_0000_0000_0000_0000_0000_0000_0000nat,
{
    lemma_radix_step(0);
    lemma_radix_step(1);
    lemma_radix_step(2);
    lemma_radix_step(3);
    lemma_radix_step(4);
    lemma_radix_step(5);
}

/// The value from limb `i` on is limb `i` plus `2^64` times the value from
/// limb `i + 1` on.
pub proof fn lemma_value_prepend(s: Seq<u64>, i: int)
    requires
        0 <= i < s.len(),
    ensures
        limbs_value(s.subrange(i, s.len() as int)) == s[i] + 0x1_0000_0000_0000_0000 * limbs_value(
            s.subrange(i + 1, s.len() as int),
        ),
{
    let n = s.len() as int;
    let t = s.subrange(i, n);
    lemma_value_split(t, 1);
    lemma_window_single(t, 0);
    assert(t.subrange(1, n - i) =~= s.subrange(i + 1, n));
    assert(radix(1) == 0x1_0000_0000_0000_0000);
    let h = limbs_value(s.subrange(i + 1, n));
    assert(radix(1) * h == 0x1_0000_0000_0000_0000 * h);
}

/// Multiply-accumulate on single words: `a * b + c + d` as a low and a high
/// word.  The sum always fits in two words.
pub fn mac(a: u64, b: u64, c: u64, d: u64) -> (r: (u64, u64))
    ensures
        r.0 + 0x1_0000_0000_0000_0000 * r.1 == a * b + c + d,
{
    assert(a * b <= 0xffff_ffff_ffff_ffff * 0xffff_ffff_ffff_ffff) by (nonlinear_arith)
        requires
            a <= 0xffff_ffff_ffff_ffff,
            b <= 0xffff_ffff_ffff_ffff,
    ;
    let t: u128 = (a as u128) * (b as u128) + (c as u128) + (d as u128);
    let lo: u64 = (t % 0x1_0000_0000_0000_0000) as u64;
    let hi: u64 = (t / 0x1_0000_0000_0000_0000) as u64;
    (lo, hi)
}

/// Add with carry: `a + b + carry` as a sum word and a carry-out bit.
pub fn adc(a: u64, b: u64, carry: u64) -> (r: (u64, u64))
    requires
        carry <= 1,
    ensures
        r.0 + 0x1_0000_0000_0000_0000 * r.1 == a + b + carry,
        r.1 <= 1,
{
    let t: u128 = (a as u128) + (b as u128) + (carry as u128);
    let lo: u64 = (t % 0x1_0000_0000_0000_0000) as u64;
    let hi: u64 = (t / 0x1_0000_0000_0000_0000) as u64;
    (lo, hi)
}

/// Subtract with borrow: `a - b - borrow` as a difference word and a
/// borrow-out bit.
pub fn sbb(a: u64, b: u64, borrow: u64) -> (r: (u64, u64))
    requires
        borrow <= 1,
    ensures
        r.0 - 0x1_0000_0000_0000_0000 * r.1 == a - b - borrow,
        r.1 <= 1,
{
    let t: u128 = (a as u128) + 0x1_0000_0000_0000_0000 - (b as u128) - (borrow as u128);
    let lo: u64 = (t % 0x1_0000_0000_0000_0000) as u64;
    let hi: u64 = 1 - (t / 0x1_0000_0000_0000_0000) as u64;
    (lo, hi)
}

/// For two bits, `b` and not `t`.
pub fn and_not(b: u64, t: u64) -> (r: u64)
    requires
        b <= 1,
        t <= 1,
    ensures
        r == if b == 1 && t == 0 { 1u64 } else { 0u64 },
{
    let r = b & (1 ^ t);
    assert(b <= 1 && t <= 1 ==> (b & (1 ^ t)) == if b == 1 && t == 0 { 1u64 } else { 0u64 })
        by (bit_vector);
    r
}

/// Picks `a` when `flag` is 1 and `b` when it is 0, by masking rather than
/// by a branch.
pub fn select_word(flag: u64, a: u64, b: u64) -> (r: u64)
    requires
        flag <= 1,
    ensures
        r == if flag == 1 { a } else { b },
{
    let mask: u64 = 0xffff_ffff_ffff_ffff * flag;
    let r = (a & mask) | (b & !mask);
    assert(mask == 0 ==> ((a & mask) | (b & !mask)) == b) by (bit_vector);
    assert(mask == 0xffff_ffff_ffff_ffff ==> ((a & mask) | (b & !mask)) == a) by (bit_vector);
    r
}

/// The bitwise or of two words, which is zero only when both are.
pub fn or_word(a: u64, b: u64) -> (r: u64)
    ensures
        r == a | b,
        r == 0 <==> (a == 0 && b == 0),
{
    assert((a | b) == 0 <==> (a == 0 && b == 0)) by (bit_vector);
    a | b
}

/// 1 when the word is zero and 0 when it is not, without a branch.
pub fn is_zero_word(a: u64) -> (r: u64)
    ensures
        r == if a == 0 { 1u64 } else { 0u64 },
{
    let t: u128 = (a as u128) + 0xffff_ffff_ffff_ffff;
    let nz: u64 = (t / 0x1_0000_0000_0000_0000) as u64;
    1 - nz
}

} // verus!
