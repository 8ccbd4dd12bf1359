//! X25519: the Diffie-Hellman function on Curve25519, by the Montgomery
//! ladder on `x` coordinates alone.
//!
//! The field is that of `p = 2^255 - 19`, held on four limbs in the
//! Montgomery domain like every other field of this library.  Every ladder
//! step does the same work; the scalar's bit only steers two masked swaps.

use vstd::prelude::*;
use vstd::arithmetic::power2::{lemma2_to64, lemma_pow2_unfold, pow2};
use crate::bignum::bignum_select;
use crate::encoding::{be_value, limbs_from_be_bytes, limbs_to_be_bytes};
use crate::error::Error;
use crate::field::Field;
use crate::jacobian::{inverse_power, lemma_rep_congruent};
use crate::limbs::{lemma_radix_values, lemma_value_4, limbs_value, radix};
use crate::montgomery::{is_mont_word, lemma_mont_round_trip};
use crate::encoding::be_word;

verus! {

/// The prime `p = 2^255 - 19`.
pub open spec fn p25519_prime() -> nat {
    0x7fffffffffffffffffffffffffffffffffffffffffffffffffffffffffffffednat
}

/// The inverse of `R = 2^256` modulo `p`.
pub open spec fn p25519_r_inv() -> nat {
    0x179435e50d79435e50d79435e50d79435e50d79435e50d79435e50d79435e50anat
}

/// The limbs of `p`.
pub const P_25519: [u64; 4] = [
    0xffffffffffffffed,
    0xffffffffffffffff,
    0xffffffffffffffff,
    0x7fffffffffffffff,
];

/// The limbs of `R^2 mod p`.
pub const P_25519_R2: [u64; 4] = [
    0x00000000000005a4,
    0x0000000000000000,
    0x0000000000000000,
    0x0000000000000000,
];

/// The word `w` with `p * w == -1 (mod 2^64)`.
pub const P_25519_W: u64 = 0x86bca1af286bca1b;

/// The limbs of the ladder constant 121665, which is `(A - 2) / 4` for the
/// curve coefficient `A = 486662`, in the Montgomery domain.
pub const P_25519_A24: [u64; 4] = [
    0x0000000000468ba6,
    0x0000000000000000,
    0x0000000000000000,
    0x0000000000000000,
];

/// The constant for `R^2 mod p` is what its name says, by an explicit quotient.
proof fn lemma_p25519_r2()
    ensures
        limbs_value(P_25519_R2@) == (radix(4) * radix(4)) % p25519_prime(),
{
    lemma_value_4(P_25519_R2@);
    lemma_radix_values();
    let v = limbs_value(P_25519_R2@) as int;
    assert(v == 0x5a4int);
    let r = radix(4) as int;
    let p = p25519_prime() as int;
    assert(r * r == 0x2000000000000000000000000000000000000000000000000000000000000004cint * p + v);
    vstd::arithmetic::div_mod::lemma_fundamental_div_mod_converse_mod(r * r, p, 0x2000000000000000000000000000000000000000000000000000000000000004cint, v);
}

/// The constant for the inverse of `R` modulo `p` is what its name says, by an explicit quotient.
proof fn lemma_p25519_r_inv()
    ensures
        (radix(4) * p25519_r_inv()) % p25519_prime() == 1,
{
    lemma_radix_values();
    let r = radix(4) as int;
    let i = p25519_r_inv() as int;
    let p = p25519_prime() as int;
    assert(r * i == 0x2f286bca1af286bca1af286bca1af286bca1af286bca1af286bca1af286bca1bint * p + 1);
    vstd::arithmetic::div_mod::lemma_fundamental_div_mod_converse_mod(r * i, p, 0x2f286bca1af286bca1af286bca1af286bca1af286bca1af286bca1af286bca1bint, 1);
}

/// The constant for the ladder constant is what its name says, by an explicit quotient.
proof fn lemma_p25519_a24()
    ensures
        limbs_value(P_25519_A24@) == (121665 * radix(4)) % p25519_prime(),
{
    lemma_value_4(P_25519_A24@);
    lemma_radix_values();
    let v = limbs_value(P_25519_A24@) as int;
    assert(v == 0x468ba6int);
    let r = radix(4) as int;
    let c = 121665 as int;
    let p = p25519_prime() as int;
    assert(c * r == 0x3b682int * p + v);
    vstd::arithmetic::div_mod::lemma_fundamental_div_mod_converse_mod(c * r, p, 0x3b682int, v);
}

/// The constants are what their names say.
pub proof fn lemma_p25519_constants()
    ensures
        limbs_value(P_25519@) == p25519_prime(),
        limbs_value(P_25519_R2@) == (radix(4) * radix(4)) % p25519_prime(),
        (radix(4) * p25519_r_inv()) % p25519_prime() == 1,
        is_mont_word(P_25519@[0], P_25519_W),
        limbs_value(P_25519_A24@) == (121665 * radix(4)) % p25519_prime(),
{
    lemma_value_4(P_25519@);
    lemma_radix_values();
    lemma_p25519_r2();
    lemma_p25519_r_inv();
    lemma_p25519_a24();
    assert(P_25519@[0] * P_25519_W + 1 == 0x86bca1af286bca11 * 0x1_0000_0000_0000_0000) by {
        assert(P_25519@[0] == 0xffffffffffffffed);
        assert(P_25519_W == 0x86bca1af286bca1b);
    }
    vstd::arithmetic::div_mod::lemma_fundamental_div_mod_converse_mod(
        P_25519@[0] * P_25519_W + 1,
        0x1_0000_0000_0000_0000,
        0x86bca1af286bca11,
        0,
    );
}

/// The parameters of the field of Curve25519.
pub open spec fn p25519_field_spec() -> Field<4> {
    Field {
        m: P_25519,
        r2: P_25519_R2,
        w: P_25519_W,
        p: Ghost(p25519_prime()),
        r_inv: Ghost(p25519_r_inv()),
    }
}

/// The field of Curve25519.
#[verifier::when_used_as_spec(p25519_field_spec)]
pub fn p25519_field() -> (f: Field<4>)
    ensures
        f == p25519_field_spec(),
        f.wf(),
        f.p@ == p25519_prime(),
        f.r_inv@ == p25519_r_inv(),
{
    proof {
        lemma_p25519_constants();
    }
    Field {
        m: P_25519,
        r2: P_25519_R2,
        w: P_25519_W,
        p: Ghost(p25519_prime()),
        r_inv: Ghost(p25519_r_inv()),
    }
}

/// The state of the ladder: the running pair of points `(k P, (k + 1) P)`,
/// each by its projective `x` coordinate `X : Z`, as field elements.
pub struct LadderState {
    pub x2: nat,
    pub z2: nat,
    pub x3: nat,
    pub z3: nat,
}

/// `X` of the double of `x : z`, before reduction: `(x + z)^2 (x - z)^2`.
pub open spec fn xdbl_x(x: int, z: int) -> int {
    ((x + z) * (x + z)) * ((x - z) * (x - z))
}

/// `Z` of the double of `x : z`, before reduction: `e ((x + z)^2 + 121665 e)`
/// with `e = (x + z)^2 - (x - z)^2`.
pub open spec fn xdbl_z(x: int, z: int) -> int {
    let e = (x + z) * (x + z) - (x - z) * (x - z);
    e * ((x + z) * (x + z) + 121665 * e)
}

/// `X` of the sum of `x2 : z2` and `x3 : z3`, before reduction:
/// `(da + cb)^2` with `da = (x3 - z3)(x2 + z2)` and `cb = (x3 + z3)(x2 - z2)`.
pub open spec fn xadd_x(x2: int, z2: int, x3: int, z3: int) -> int {
    let da = (x3 - z3) * (x2 + z2);
    let cb = (x3 + z3) * (x2 - z2);
    (da + cb) * (da + cb)
}

/// `Z` of the sum of `x2 : z2` and `x3 : z3`, whose difference has the affine
/// `x` coordinate `x1`, before reduction: `x1 (da - cb)^2`.
pub open spec fn xadd_z(x1: int, x2: int, z2: int, x3: int, z3: int) -> int {
    let da = (x3 - z3) * (x2 + z2);
    let cb = (x3 + z3) * (x2 - z2);
    x1 * ((da - cb) * (da - cb))
}

/// One ladder step: from the pair for `k` to the pair for `2 k + bit`.  The
/// pair is swapped where the bit is set, the first point is doubled and the
/// two are added, and the pair is swapped back.
pub open spec fn ladder_step(s: LadderState, bit: nat, x1: nat, p: nat) -> LadderState {
    let pi = p as int;
    let (ax, az, bx, bz) = if bit == 1 {
        (s.x3 as int, s.z3 as int, s.x2 as int, s.z2 as int)
    } else {
        (s.x2 as int, s.z2 as int, s.x3 as int, s.z3 as int)
    };
    let dx = (xdbl_x(ax, az) % pi) as nat;
    let dz = (xdbl_z(ax, az) % pi) as nat;
    let sx = (xadd_x(ax, az, bx, bz) % pi) as nat;
    let sz = (xadd_z(x1 as int, ax, az, bx, bz) % pi) as nat;
    if bit == 1 {
        LadderState { x2: sx, z2: sz, x3: dx, z3: dz }
    } else {
        LadderState { x2: dx, z2: dz, x3: sx, z3: sz }
    }
}

/// The ladder over the low `nbits` bits of `k`, most significant first,
/// from the pair `(1 : 0, x1 : 1)`.
pub open spec fn ladder(k: nat, nbits: nat, x1: nat, p: nat) -> LadderState
    decreases nbits,
{
    if nbits == 0 {
        LadderState { x2: 1, z2: 0, x3: x1, z3: 1 }
    } else {
        ladder_step(ladder(k / 2, (nbits - 1) as nat, x1, p), k % 2, x1, p)
    }
}

/// The doubling formulas are those of the curve
/// `y^2 = x^3 + 486662 x^2 + x`: the double of `x : z` is
/// `(x^2 - z^2)^2 : 4 x z (x^2 + 486662 x z + z^2)`.
pub proof fn lemma_xdbl_formula(x: int, z: int)
    ensures
        xdbl_x(x, z) == (x * x - z * z) * (x * x - z * z),
        xdbl_z(x, z) == 4 * (x * z) * (x * x + 486662 * (x * z) + z * z),
{
    let a = x + z;
    let b = x - z;
    assert(a * b == x * x - z * z) by (nonlinear_arith)
        requires
            a == x + z,
            b == x - z,
    ;
    assert((a * a) * (b * b) == (a * b) * (a * b)) by (nonlinear_arith);
    let e = a * a - b * b;
    assert(e == 4 * (x * z)) by (nonlinear_arith)
        requires
            e == (x + z) * (x + z) - (x - z) * (x - z),
    ;
    assert(a * a == x * x + 2 * (x * z) + z * z) by (nonlinear_arith)
        requires
            a == x + z,
    ;
    assert(a * a + 121665 * e == x * x + 486662 * (x * z) + z * z);
}

/// The addition formulas are those of differential addition: the sum of
/// `x2 : z2` and `x3 : z3`, whose difference is `x1 : 1`, is
/// `4 (x2 x3 - z2 z3)^2 : 4 x1 (x3 z2 - x2 z3)^2`.
pub proof fn lemma_xadd_formula(x1: int, x2: int, z2: int, x3: int, z3: int)
    ensures
        xadd_x(x2, z2, x3, z3) == 4 * ((x2 * x3 - z2 * z3) * (x2 * x3 - z2 * z3)),
        xadd_z(x1, x2, z2, x3, z3) == 4 * (x1 * ((x3 * z2 - x2 * z3) * (x3 * z2 - x2 * z3))),
{
    let da = (x3 - z3) * (x2 + z2);
    let cb = (x3 + z3) * (x2 - z2);
    let s = x2 * x3 - z2 * z3;
    let d = x3 * z2 - x2 * z3;
    assert(da + cb == 2 * s) by (nonlinear_arith)
        requires
            da == (x3 - z3) * (x2 + z2),
            cb == (x3 + z3) * (x2 - z2),
            s == x2 * x3 - z2 * z3,
    ;
    assert(da - cb == 2 * d) by (nonlinear_arith)
        requires
            da == (x3 - z3) * (x2 + z2),
            cb == (x3 + z3) * (x2 - z2),
            d == x3 * z2 - x2 * z3,
    ;
    assert((2 * s) * (2 * s) == 4 * (s * s)) by (nonlinear_arith);
    assert((2 * d) * (2 * d) == 4 * (d * d)) by (nonlinear_arith);
    assert(x1 * (4 * (d * d)) == 4 * (x1 * (d * d))) by (nonlinear_arith);
}

/// The double of the point at infinity `x : 0` is the point at infinity.
pub proof fn lemma_xdbl_identity(x: int)
    ensures
        xdbl_z(x, 0) == 0,
{
    let e = (x + 0) * (x + 0) - (x - 0) * (x - 0);
    assert(e == 0);
    assert(e * ((x + 0) * (x + 0) + 121665 * e) == 0) by (nonlinear_arith)
        requires
            e == 0,
    ;
}

/// A ladder step with a clear bit keeps a first point at infinity at
/// infinity: the pair `(0 P, 1 P)` stays a pair `(0 P, ..)`.
pub proof fn lemma_ladder_step_identity(s: LadderState, x1: nat, p: nat)
    requires
        p > 0,
        s.z2 == 0,
    ensures
        ladder_step(s, 0, x1, p).z2 == 0,
{
    lemma_xdbl_identity(s.x2 as int);
    vstd::arithmetic::div_mod::lemma_small_mod(0, p);
}

/// The number that a little-endian byte string stands for.
pub open spec fn le_value(b: Seq<u8>) -> nat {
    be_value(b.reverse())
}

/// The scalar as the function uses it: the three low bits and the top bit
/// cleared, and the bit below the top one set.
pub open spec fn clamp(scalar: Seq<u8>) -> Seq<u8> {
    scalar.update(0, scalar[0] & 248).update(31, (scalar[31] & 127) | 64)
}

/// The `u` coordinate as the function uses it: the top bit of the last byte
/// is not part of it.
pub open spec fn mask_u(u: Seq<u8>) -> Seq<u8> {
    u.update(31, u[31] & 127)
}

/// The X25519 function on 32-byte strings, as the number that the result
/// encodes: the affine `x` of the first point of the ladder's final pair,
/// after 255 steps over the clamped scalar from the masked `u`.
pub open spec fn x25519_spec(scalar: Seq<u8>, u: Seq<u8>) -> nat {
    let p = p25519_prime();
    let k = le_value(clamp(scalar));
    let x1 = le_value(mask_u(u));
    let s = ladder(k, 255, x1, p);
    ((s.x2 * inverse_power(s.z2, p)) % (p as int)) as nat
}

/// The running pair of the ladder, each coordinate a residue in the
/// Montgomery domain.
#[derive(Clone, Copy, Debug)]
pub struct Ladder {
    pub x2: [u64; 4],
    pub z2: [u64; 4],
    pub x3: [u64; 4],
    pub z3: [u64; 4],
}

impl Ladder {
    /// Every coordinate is below the modulus.
    pub open spec fn reduced(&self, f: &Field<4>) -> bool {
        f.red(self.x2@) && f.red(self.z2@) && f.red(self.x3@) && f.red(self.z3@)
    }

    /// The state that the stored coordinates stand for.
    pub open spec fn model(&self, f: &Field<4>) -> LadderState {
        LadderState {
            x2: f.value(self.x2@),
            z2: f.value(self.z2@),
            x3: f.value(self.x3@),
            z3: f.value(self.z3@),
        }
    }
}

/// Constant-time conditional swap: exchanges `a` and `b` when `flag` is 1
/// and leaves them when it is 0.
pub fn cswap(flag: u64, a: &mut [u64; 4], b: &mut [u64; 4])
    requires
        flag <= 1,
    ensures
        final(a)@ == if flag == 1 { old(b)@ } else { old(a)@ },
        final(b)@ == if flag == 1 { old(a)@ } else { old(b)@ },
{
    let keep = *a;
    bignum_select(a, flag, b);
    bignum_select(b, flag, &keep);
}

/// One step of the ladder on stored coordinates, steered by `bit`.
pub fn x25519_ladder_step(s: &mut Ladder, bit: u64, x1: &[u64; 4], t: &mut [u64])
    requires
        bit <= 1,
        old(t)@.len() == 8,
        old(s).reduced(&p25519_field()),
        p25519_field().red(x1@),
    ensures
        final(t)@.len() == 8,
        final(s).reduced(&p25519_field()),
        final(s).model(&p25519_field()) == ladder_step(
            old(s).model(&p25519_field()),
            bit as nat,
            p25519_field().value(x1@),
            p25519_prime(),
        ),
{
    let f = p25519_field();
    let ghost s0 = s.model(&f);
    let ghost x1v = f.value(x1@) as int;
    cswap(bit, &mut s.x2, &mut s.x3);
    cswap(bit, &mut s.z2, &mut s.z3);
    let ghost ax = f.value(s.x2@) as int;
    let ghost az = f.value(s.z2@) as int;
    let ghost bx = f.value(s.x3@) as int;
    let ghost bz = f.value(s.z3@) as int;
    proof {
        lemma_p25519_constants();
        f.lemma_rep_value(s.x2@);
        f.lemma_rep_value(s.z2@);
        f.lemma_rep_value(s.x3@);
        f.lemma_rep_value(s.z3@);
        f.lemma_rep_value(x1@);
        f.lemma_rep_value(P_25519_A24@);
        lemma_mont_round_trip(121665, radix(4), p25519_r_inv(), p25519_prime());
        assert(f.value(P_25519_A24@) == 121665);
    }
    let mut a = [0u64;4];
    f.add_t(&mut a, &s.x2, &s.z2, Ghost(ax), Ghost(az));
    let mut aa = [0u64;4];
    f.sqr_t(&mut aa, &a, t, Ghost(ax + az));
    let mut b = [0u64;4];
    f.sub_t(&mut b, &s.x2, &s.z2, Ghost(ax), Ghost(az));
    let mut bb = [0u64;4];
    f.sqr_t(&mut bb, &b, t, Ghost(ax - az));
    let ghost aav = (ax + az) * (ax + az);
    let ghost bbv = (ax - az) * (ax - az);
    let mut e = [0u64;4];
    f.sub_t(&mut e, &aa, &bb, Ghost(aav), Ghost(bbv));
    let ghost ev = aav - bbv;
    let mut c = [0u64;4];
    f.add_t(&mut c, &s.x3, &s.z3, Ghost(bx), Ghost(bz));
    let mut d = [0u64;4];
    f.sub_t(&mut d, &s.x3, &s.z3, Ghost(bx), Ghost(bz));
    let mut da = [0u64;4];
    f.mul_t(&mut da, &d, &a, t, Ghost(bx - bz), Ghost(ax + az));
    let mut cb = [0u64;4];
    f.mul_t(&mut cb, &c, &b, t, Ghost(bx + bz), Ghost(ax - az));
    let ghost dav = (bx - bz) * (ax + az);
    let ghost cbv = (bx + bz) * (ax - az);
    let mut sum = [0u64;4];
    f.add_t(&mut sum, &da, &cb, Ghost(dav), Ghost(cbv));
    let mut dif = [0u64;4];
    f.sub_t(&mut dif, &da, &cb, Ghost(dav), Ghost(cbv));
    let mut dif2 = [0u64;4];
    f.sqr_t(&mut dif2, &dif, t, Ghost(dav - cbv));
    let mut ae = [0u64;4];
    f.mul_t(&mut ae, &P_25519_A24, &e, t, Ghost(121665), Ghost(ev));
    let mut tt = [0u64;4];
    f.add_t(&mut tt, &aa, &ae, Ghost(aav), Ghost(121665 * ev));
    f.sqr_t(&mut s.x3, &sum, t, Ghost(dav + cbv));
    f.mul_t(&mut s.z3, x1, &dif2, t, Ghost(x1v), Ghost((dav - cbv) * (dav - cbv)));
    f.mul_t(&mut s.x2, &aa, &bb, t, Ghost(aav), Ghost(bbv));
    f.mul_t(&mut s.z2, &e, &tt, t, Ghost(ev), Ghost(aav + 121665 * ev));
    proof {
        f.lemma_value_rep(s.x3@, xadd_x(ax, az, bx, bz));
        f.lemma_value_rep(s.z3@, xadd_z(x1v, ax, az, bx, bz));
        f.lemma_value_rep(s.x2@, xdbl_x(ax, az));
        f.lemma_value_rep(s.z2@, xdbl_z(ax, az));
    }
    cswap(bit, &mut s.x2, &mut s.x3);
    cswap(bit, &mut s.z2, &mut s.z3);
}

/// Ladder steps over the top `nb` bits of the word `w0`, most significant
/// first, where `nb` is 64, or 63 for a word whose lowest bit is clear.
fn ladder_word(
    s: &mut Ladder,
    w0: u64,
    nb: usize,
    x1: &[u64; 4],
    t: &mut [u64],
    Ghost(prefix0): Ghost<nat>,
    Ghost(steps0): Ghost<nat>,
)
    requires
        old(t)@.len() == 8,
        p25519_field().red(x1@),
        old(s).reduced(&p25519_field()),
        nb == 64 || (nb == 63 && w0 % 2 == 0),
        old(s).model(&p25519_field()) == ladder(
            prefix0,
            steps0,
            p25519_field().value(x1@),
            p25519_prime(),
        ),
    ensures
        final(t)@.len() == 8,
        final(s).reduced(&p25519_field()),
        final(s).model(&p25519_field()) == ladder(
            (if nb == 64 {
                0x1_0000_0000_0000_0000 * prefix0 + w0
            } else {
                0x8000_0000_0000_0000 * prefix0 + w0 / 2
            }) as nat,
            steps0 + nb as nat,
            p25519_field().value(x1@),
            p25519_prime(),
        ),
{
    let ghost x1v = p25519_field().value(x1@);
    let ghost p = p25519_prime();
    let mut w = w0;
    let ghost mut consumed: nat = 0;
    let ghost mut prefix: nat = prefix0;
    let mut j: usize = 0;
    proof {
        lemma2_to64();
        assert(prefix0 * 1 == prefix0);
        assert(w0 * 1 == w0);
    }
    while j < nb
        invariant
            t@.len() == 8,
            p25519_field().red(x1@),
            x1v == p25519_field().value(x1@),
            p == p25519_prime(),
            j <= nb <= 64,
            s.reduced(&p25519_field()),
            w0 * pow2(j as nat) == consumed * 0x1_0000_0000_0000_0000 + w,
            prefix == prefix0 * pow2(j as nat) + consumed,
            s.model(&p25519_field()) == ladder(prefix, steps0 + j as nat, x1v, p),
        decreases nb - j,
    {
        let bit = w / 0x8000_0000_0000_0000;
        w = (w % 0x8000_0000_0000_0000) * 2;
        let ghost before = s.model(&p25519_field());
        x25519_ladder_step(s, bit, x1, t);
        proof {
            let pj = pow2(j as nat) as int;
            lemma_pow2_unfold((j + 1) as nat);
            assert(pow2((j + 1) as nat) == 2 * pj);
            assert(w0 * (2 * pj) == 2 * (w0 * pj)) by (nonlinear_arith);
            assert(prefix0 * (2 * pj) == 2 * (prefix0 * pj)) by (nonlinear_arith);
            assert((2 * consumed + bit) * 0x1_0000_0000_0000_0000 == 2 * (consumed
                * 0x1_0000_0000_0000_0000) + bit * 0x1_0000_0000_0000_0000) by (nonlinear_arith);
            assert(bit * 0x1_0000_0000_0000_0000 == if bit == 1 {
                0x1_0000_0000_0000_0000int
            } else {
                0int
            });
            let np: nat = 2 * prefix + bit as nat;
            assert(np / 2 == prefix);
            assert(np % 2 == bit as nat);
            assert(ladder(np, steps0 + j as nat + 1, x1v, p) == ladder_step(
                ladder(np / 2, steps0 + j as nat, x1v, p),
                np % 2,
                x1v,
                p,
            ));
            consumed = 2 * consumed + bit as nat;
            prefix = np;
        }
        j += 1;
    }
    proof {
        assert(pow2(64) == 0x1_0000_0000_0000_0000);
        lemma2_to64();
        lemma_pow2_unfold(64);
        assert(pow2(63) == 0x8000_0000_0000_0000);
        assert(consumed * 0x1_0000_0000_0000_0000 == 0x1_0000_0000_0000_0000 * consumed)
            by (nonlinear_arith);
        if nb == 64 {
            assert(w0 * pow2(64) == 0x1_0000_0000_0000_0000 * w0) by (nonlinear_arith)
                requires
                    pow2(64) == 0x1_0000_0000_0000_0000,
            ;
            assert(prefix0 * pow2(64) == 0x1_0000_0000_0000_0000 * prefix0) by (nonlinear_arith)
                requires
                    pow2(64) == 0x1_0000_0000_0000_0000,
            ;
            assert(consumed == w0);
        } else {
            assert(w0 * pow2(63) == 0x8000_0000_0000_0000 * w0) by (nonlinear_arith)
                requires
                    pow2(63) == 0x8000_0000_0000_0000,
            ;
            assert(prefix0 * pow2(63) == 0x8000_0000_0000_0000 * prefix0) by (nonlinear_arith)
                requires
                    pow2(63) == 0x8000_0000_0000_0000,
            ;
            assert(consumed == w0 / 2);
        }
    }
}

/// The ladder over a scalar below `2^255`: 255 steps, from bit 254 down to
/// bit 0.
pub fn x25519_ladder(k: &[u64; 4], x1: &[u64; 4], t: &mut [u64]) -> (s: Ladder)
    requires
        old(t)@.len() == 8,
        p25519_field().red(x1@),
        limbs_value(k@) < 0x8000_0000_0000_0000_0000_0000_0000_0000_0000_0000_0000_0000_0000_0000_0000_0000,
    ensures
        final(t)@.len() == 8,
        s.reduced(&p25519_field()),
        s.model(&p25519_field()) == ladder(
            limbs_value(k@),
            255,
            p25519_field().value(x1@),
            p25519_prime(),
        ),
{
    let f = p25519_field();
    let ghost x1v = f.value(x1@);
    let ghost p = p25519_prime();
    let one = f.one(t);
    let mut s = Ladder { x2: one, z2: [0u64;4], x3: *x1, z3: one };
    proof {
        crate::limbs::lemma_value_all_zero(s.z2@);
        assert(0 * f.r_inv@ == 0);
        vstd::arithmetic::div_mod::lemma_small_mod(0, p);
        lemma_value_4(k@);
        assert(k@[3] < 0x8000_0000_0000_0000);
    }
    // bit 255 is not part of the scalar: the top limb gives 63 steps
    ladder_word(&mut s, 2 * k[3], 63, x1, t, Ghost(0), Ghost(0));
    let ghost p3 = k@[3] as nat;
    ladder_word(&mut s, k[2], 64, x1, t, Ghost(p3), Ghost(63));
    let ghost p2 = (0x1_0000_0000_0000_0000 * p3 + k@[2]) as nat;
    ladder_word(&mut s, k[1], 64, x1, t, Ghost(p2), Ghost(127));
    let ghost p1 = (0x1_0000_0000_0000_0000 * p2 + k@[1]) as nat;
    ladder_word(&mut s, k[0], 64, x1, t, Ghost(p1), Ghost(191));
    s
}

/// The X25519 function: the product of the `u` coordinate and the scalar,
/// both 32 bytes little-endian, into the 32 bytes of `out`.
///
/// A string that is not 32 bytes long is `WrongLength`.  A coordinate that,
/// without its top bit, is not below `p` is `OutOfRange`: it is not
/// reduced.  On an error `out` is left as it was.
pub fn x25519(scalar: &[u8], u: &[u8], out: &mut [u8]) -> (r: Result<(), Error>)
    ensures
        final(out)@.len() == old(out)@.len(),
        match r {
            Ok(_) => scalar@.len() == 32 && u@.len() == 32 && old(out)@.len() == 32 && le_value(
                mask_u(u@),
            ) < p25519_prime() && le_value(final(out)@) == x25519_spec(scalar@, u@),
            Err(e) => final(out)@ == old(out)@ && ((e == Error::WrongLength && !(scalar@.len()
                == 32 && u@.len() == 32 && old(out)@.len() == 32)) || (e == Error::OutOfRange
                && scalar@.len() == 32 && u@.len() == 32 && old(out)@.len() == 32 && le_value(
                mask_u(u@),
            ) >= p25519_prime())),
        },
{
    if scalar.len() != 32 || u.len() != 32 || out.len() != 32 {
        return Err(Error::WrongLength);
    }
    let f = p25519_field();
    let mut t = [0u64;8];
    // both inputs turned round to big-endian, the scalar clamped and the
    // coordinate masked on the way
    let mut kb = [0u8;32];
    let mut ub = [0u8;32];
    let mut i: usize = 0;
    while i < 32
        invariant
            i <= 32,
            scalar@.len() == 32,
            u@.len() == 32,
            forall|j: int| 0 <= j < i ==> kb@[31 - j] == scalar@[j],
            forall|j: int| 0 <= j < i ==> ub@[31 - j] == u@[j],
        decreases 32 - i,
    {
        kb[31 - i] = scalar[i];
        ub[31 - i] = u[i];
        i += 1;
    }
    kb[31] = kb[31] & 248;
    kb[0] = (kb[0] & 127) | 64;
    ub[0] = ub[0] & 127;
    proof {
        assert(kb@ =~= clamp(scalar@).reverse());
        assert(ub@ =~= mask_u(u@).reverse());
        let b = scalar@[31];
        assert(((b & 127) | 64) < 128) by (bit_vector);
    }
    let k = limbs_from_be_bytes::<4>(&kb);
    let x = limbs_from_be_bytes::<4>(&ub);
    proof {
        assert(k@[4 - 1 - 0int] == be_word(kb@, 8 * 0int));
        assert(k@[3] < 0x8000_0000_0000_0000);
        lemma_value_4(k@);
    }
    if f.is_reduced(&x) == 0 {
        return Err(Error::OutOfRange);
    }
    let mut x1 = [0u64;4];
    f.to_mont(&mut x1, &x, &mut t);
    proof {
        lemma_p25519_constants();
        lemma_mont_round_trip(limbs_value(x@), radix(4), p25519_r_inv(), p25519_prime());
    }
    let s = x25519_ladder(&k, &x1, &mut t);
    let ghost sm = s.model(&f);
    let ghost pw = inverse_power(sm.z2, p25519_prime());
    let zi = f.inverse(&s.z2, &mut t);
    proof {
        f.lemma_rep_value(s.x2@);
        f.lemma_rep_value(zi@);
        lemma_rep_congruent(limbs_value(zi@), pw, radix(4), p25519_prime());
    }
    let mut xm = [0u64;4];
    f.mul_t(&mut xm, &s.x2, &zi, &mut t, Ghost(sm.x2 as int), Ghost(pw));
    proof {
        f.lemma_value_rep(xm@, sm.x2 * pw);
    }
    let mut xo = [0u64;4];
    f.from_mont(&mut xo, &xm, &mut t);
    let mut rb = [0u8;32];
    limbs_to_be_bytes::<4>(&mut rb, 0, &xo);
    proof {
        assert(rb@.subrange(0, 32) =~= rb@);
    }
    let mut i: usize = 0;
    while i < 32
        invariant
            i <= 32,
            out@.len() == 32,
            forall|j: int| 0 <= j < i ==> out@[j] == rb@[31 - j],
        decreases 32 - i,
    {
        out[i] = rb[31 - i];
        i += 1;
    }
    proof {
        assert(out@.reverse() =~= rb@);
    }
    Ok(())
}

/// Key agreement by X25519: as `x25519`, but an all-zero outcome, which a
/// peer's point of small order gives, is turned down.
///
/// A string that is not 32 bytes long is `WrongLength`; a coordinate that,
/// without its top bit, is not below `p` is `OutOfRange`; an outcome of zero
/// is `NotOnCurve`.  On an error `out` is left as it was.
pub fn x25519_shared_secret(scalar: &[u8], u: &[u8], out: &mut [u8]) -> (r: Result<(), Error>)
    ensures
        final(out)@.len() == old(out)@.len(),
        match r {
            Ok(_) => scalar@.len() == 32 && u@.len() == 32 && old(out)@.len() == 32 && le_value(
                mask_u(u@),
            ) < p25519_prime() && x25519_spec(scalar@, u@) != 0 && le_value(final(out)@)
                == x25519_spec(scalar@, u@),
            Err(e) => final(out)@ == old(out)@ && ((e == Error::WrongLength && !(scalar@.len()
                == 32 && u@.len() == 32 && old(out)@.len() == 32)) || (e == Error::OutOfRange
                && scalar@.len() == 32 && u@.len() == 32 && old(out)@.len() == 32 && le_value(
                mask_u(u@),
            ) >= p25519_prime()) || (e == Error::NotOnCurve && scalar@.len() == 32 && u@.len()
                == 32 && old(out)@.len() == 32 && le_value(mask_u(u@)) < p25519_prime()
                && x25519_spec(scalar@, u@) == 0)),
        },
{
    if out.len() != 32 {
        return Err(Error::WrongLength);
    }
    let mut secret = [0u8;32];
    match x25519(scalar, u, &mut secret) {
        Ok(_) => {},
        Err(e) => {
            return Err(e);
        },
    }
    // the sum of the bytes is zero only for the all-zero string
    let mut sum: u32 = 0;
    let mut i: usize = 0;
    while i < 32
        invariant
            i <= 32,
            sum <= 255 * i,
            sum == 0 <==> (forall|j: int| 0 <= j < i ==> secret@[j] == 0),
        decreases 32 - i,
    {
        sum = sum + secret[i] as u32;
        i += 1;
    }
    proof {
        let rev = secret@.reverse();
        crate::encoding::lemma_be_zero(rev);
        if sum == 0 {
            assert forall|j: int| 0 <= j < rev.len() implies rev[j] == 0 by {
                assert(rev[j] == secret@[31 - j]);
            }
        } else {
            if be_value(rev) == 0 {
                assert forall|j: int| 0 <= j < 32 implies secret@[j] == 0 by {
                    assert(rev[31 - j] == secret@[j]);
                }
            }
        }
    }
    if sum == 0 {
        return Err(Error::NotOnCurve);
    }
    let mut i: usize = 0;
    while i < 32
        invariant
            i <= 32,
            out@.len() == 32,
            forall|j: int| 0 <= j < i ==> out@[j] == secret@[j],
        decreases 32 - i,
    {
        out[i] = secret[i];
        i += 1;
    }
    proof {
        assert(out@ =~= secret@);
    }
    Ok(())
}

} // verus!
