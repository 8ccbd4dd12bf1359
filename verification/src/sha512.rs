//! The SHA-512 compression function: message schedule, rounds, and the
//! update of a chaining state over whole blocks, four blocks at a time where
//! the input allows it.

use vstd::prelude::*;
use vstd::slice::slice_subrange;

verus! {

/// The round constants: the first 64 bits of the fractional parts of the
/// cube roots of the first eighty primes.
pub const K: [u64; 80] = [
    0x428a2f98d728ae22,
    0x7137449123ef65cd,
    0xb5c0fbcfec4d3b2f,
    0xe9b5dba58189dbbc,
    0x3956c25bf348b538,
    0x59f111f1b605d019,
    0x923f82a4af194f9b,
    0xab1c5ed5da6d8118,
    0xd807aa98a3030242,
    0x12835b0145706fbe,
    0x243185be4ee4b28c,
    0x550c7dc3d5ffb4e2,
    0x72be5d74f27b896f,
    0x80deb1fe3b1696b1,
    0x9bdc06a725c71235,
    0xc19bf174cf692694,
    0xe49b69c19ef14ad2,
    0xefbe4786384f25e3,
    0x0fc19dc68b8cd5b5,
    0x240ca1cc77ac9c65,
    0x2de92c6f592b0275,
    0x4a7484aa6ea6e483,
    0x5cb0a9dcbd41fbd4,
    0x76f988da831153b5,
    0x983e5152ee66dfab,
    0xa831c66d2db43210,
    0xb00327c898fb213f,
    0xbf597fc7beef0ee4,
    0xc6e00bf33da88fc2,
    0xd5a79147930aa725,
    0x06ca6351e003826f,
    0x142929670a0e6e70,
    0x27b70a8546d22ffc,
    0x2e1b21385c26c926,
    0x4d2c6dfc5ac42aed,
    0x53380d139d95b3df,
    0x650a73548baf63de,
    0x766a0abb3c77b2a8,
    0x81c2c92e47edaee6,
    0x92722c851482353b,
    0xa2bfe8a14cf10364,
    0xa81a664bbc423001,
    0xc24b8b70d0f89791,
    0xc76c51a30654be30,
    0xd192e819d6ef5218,
    0xd69906245565a910,
    0xf40e35855771202a,
    0x106aa07032bbd1b8,
    0x19a4c116b8d2d0c8,
    0x1e376c085141ab53,
    0x2748774cdf8eeb99,
    0x34b0bcb5e19b48a8,
    0x391c0cb3c5c95a63,
    0x4ed8aa4ae3418acb,
    0x5b9cca4f7763e373,
    0x682e6ff3d6b2b8a3,
    0x748f82ee5defb2fc,
    0x78a5636f43172f60,
    0x84c87814a1f0ab72,
    0x8cc702081a6439ec,
    0x90befffa23631e28,
    0xa4506cebde82bde9,
    0xbef9a3f7b2c67915,
    0xc67178f2e372532b,
    0xca273eceea26619c,
    0xd186b8c721c0c207,
    0xeada7dd6cde0eb1e,
    0xf57d4f7fee6ed178,
    0x06f067aa72176fba,
    0x0a637dc5a2c898a6,
    0x113f9804bef90dae,
    0x1b710b35131c471b,
    0x28db77f523047d84,
    0x32caab7b40c72493,
    0x3c9ebe0a15c9bebc,
    0x431d67c49c100d4c,
    0x4cc5d4becb3e42b6,
    0x597f299cfc657e2a,
    0x5fcb6fab3ad6faec,
    0x6c44198c4a475817,
];

/// The choice function: each bit of `x` picks the bit of `y` where it is
/// set and the bit of `z` where it is clear.
pub open spec fn ch_spec(x: u64, y: u64, z: u64) -> u64 {
    (x & y) ^ (!x & z)
}

/// The majority function: each result bit is the majority of the three
/// input bits.
pub open spec fn maj_spec(x: u64, y: u64, z: u64) -> u64 {
    (x & y) ^ (x & z) ^ (y & z)
}

/// `x` rotated right by `n` bits, for `0 < n < 64`.
pub open spec fn rotr(x: u64, n: u64) -> u64 {
    (x >> n) | (x << ((64 - n) as u64))
}

/// The function written as capital sigma, index 0: rotations by 28, 34 and
/// 39.
pub open spec fn big_sigma0(x: u64) -> u64 {
    rotr(x, 28) ^ rotr(x, 34) ^ rotr(x, 39)
}

/// The function written as capital sigma, index 1: rotations by 14, 18 and
/// 41.
pub open spec fn big_sigma1(x: u64) -> u64 {
    rotr(x, 14) ^ rotr(x, 18) ^ rotr(x, 41)
}

/// The function written as small sigma, index 0: rotations by 1 and 8 and a
/// shift by 7.
pub open spec fn small_sigma0(x: u64) -> u64 {
    rotr(x, 1) ^ rotr(x, 8) ^ (x >> 7)
}

/// The function written as small sigma, index 1: rotations by 19 and 61 and
/// a shift by 6.
pub open spec fn small_sigma1(x: u64) -> u64 {
    rotr(x, 19) ^ rotr(x, 61) ^ (x >> 6)
}

/// The big-endian word that starts at byte `i`.
pub open spec fn be_word(b: Seq<u8>, i: int) -> u64 {
    ((b[i] as u64) << 56) | ((b[i + 1] as u64) << 48) | ((b[i + 2] as u64) << 40) | ((b[i
        + 3] as u64) << 32) | ((b[i + 4] as u64) << 24) | ((b[i + 5] as u64) << 16) | ((b[i
        + 6] as u64) << 8) | (b[i + 7] as u64)
}

/// Word `t` of the message schedule of one block of 128 bytes: the block's
/// own words for `t < 16`, and from there on each word the sum, modulo
/// `2^64`, of the words sixteen and seven places back and of the small sigma
/// functions of the words fifteen and two places back.
pub open spec fn schedule_word(block: Seq<u8>, t: nat) -> u64
    decreases t,
{
    if t < 16 {
        be_word(block, 8 * t as int)
    } else {
        schedule_word(block, (t - 16) as nat).wrapping_add(
            schedule_word(block, (t - 7) as nat),
        ).wrapping_add(
            small_sigma0(schedule_word(block, (t - 15) as nat)).wrapping_add(
                small_sigma1(schedule_word(block, (t - 2) as nat)),
            ),
        )
    }
}

/// One round on the eight working variables `a` to `h`, with `kw` the sum of
/// the round's constant and schedule word.
pub open spec fn round(s: Seq<u64>, kw: u64) -> Seq<u64> {
    let t1 = s[7].wrapping_add(big_sigma1(s[4])).wrapping_add(ch_spec(s[4], s[5], s[6]))
        .wrapping_add(kw);
    let t2 = big_sigma0(s[0]).wrapping_add(maj_spec(s[0], s[1], s[2]));
    seq![t1.wrapping_add(t2), s[0], s[1], s[2], s[3].wrapping_add(t1), s[4], s[5], s[6]]
}

/// The working variables after the first `t` rounds over one block.
pub open spec fn rounds(s: Seq<u64>, block: Seq<u8>, t: nat) -> Seq<u64>
    decreases t,
{
    if t == 0 {
        s
    } else {
        round(
            rounds(s, block, (t - 1) as nat),
            schedule_word(block, (t - 1) as nat).wrapping_add(K@[t - 1]),
        )
    }
}

/// The chaining state after one block: eighty rounds, then the old state
/// added in word by word.
pub open spec fn compress_block(s: Seq<u64>, block: Seq<u8>) -> Seq<u64> {
    let w = rounds(s, block, 80);
    Seq::new(8, |i: int| s[i].wrapping_add(w[i]))
}

/// The chaining state after all whole blocks of `data`, taken in order.
/// Bytes after the last whole block are not used.
pub open spec fn compress_blocks(s: Seq<u64>, data: Seq<u8>) -> Seq<u64>
    decreases data.len(),
{
    if data.len() < 128 {
        s
    } else {
        compress_blocks(
            compress_block(s, data.subrange(0, 128)),
            data.subrange(128, data.len() as int),
        )
    }
}

/// The choice function of SHA-2.
pub fn ch(x: u64, y: u64, z: u64) -> (r: u64)
    ensures
        r == ch_spec(x, y, z),
{
    (x & y) ^ (!x & z)
}

/// The majority function of SHA-2.
pub fn maj(x: u64, y: u64, z: u64) -> (r: u64)
    ensures
        r == maj_spec(x, y, z),
{
    (x & y) ^ (x & z) ^ (y & z)
}

/// Capital sigma 0 of SHA-512.
pub fn bsig0(x: u64) -> (r: u64)
    ensures
        r == big_sigma0(x),
{
    ((x >> 28) | (x << 36)) ^ ((x >> 34) | (x << 30)) ^ ((x >> 39) | (x << 25))
}

/// Capital sigma 1 of SHA-512.
pub fn bsig1(x: u64) -> (r: u64)
    ensures
        r == big_sigma1(x),
{
    ((x >> 14) | (x << 50)) ^ ((x >> 18) | (x << 46)) ^ ((x >> 41) | (x << 23))
}

/// Small sigma 0 of one word, as an exclusive or of five shifts.
fn ssig0(w: u64) -> (r: u64)
    ensures
        r == small_sigma0(w),
{
    let r = (((w >> 7) ^ (w >> 8)) ^ ((w >> 1) ^ (w << 56))) ^ (w << 63);
    assert(((((w >> 7) ^ (w >> 8)) ^ ((w >> 1) ^ (w << 56))) ^ (w << 63)) == (((w >> 1) | (w
        << 63)) ^ ((w >> 8) | (w << 56)) ^ (w >> 7))) by (bit_vector);
    r
}

/// Small sigma 1 of one word, as an exclusive or of five shifts.
fn ssig1(w: u64) -> (r: u64)
    ensures
        r == small_sigma1(w),
{
    let r = (((w >> 6) ^ (w >> 61)) ^ ((w >> 19) ^ (w << 3))) ^ (w << 45);
    assert(((((w >> 6) ^ (w >> 61)) ^ ((w >> 19) ^ (w << 3))) ^ (w << 45)) == (((w >> 19) | (w
        << 45)) ^ ((w >> 61) | (w << 3)) ^ (w >> 6))) by (bit_vector);
    r
}

/// Small sigma 0 on each of four lanes.
pub fn sigma_0(w: [u64; 4]) -> (r: [u64; 4])
    ensures
        forall|j: int| 0 <= j < 4 ==> r@[j] == small_sigma0(w@[j]),
{
    [ssig0(w[0]), ssig0(w[1]), ssig0(w[2]), ssig0(w[3])]
}

/// Small sigma 1 on each of four lanes.
pub fn sigma_1(w: [u64; 4]) -> (r: [u64; 4])
    ensures
        forall|j: int| 0 <= j < 4 ==> r@[j] == small_sigma1(w@[j]),
{
    [ssig1(w[0]), ssig1(w[1]), ssig1(w[2]), ssig1(w[3])]
}

/// Reads the big-endian word that starts at byte `i`.
fn load_be(b: &[u8], i: usize) -> (r: u64)
    requires
        i + 8 <= b@.len(),
    ensures
        r == be_word(b@, i as int),
{
    ((b[i] as u64) << 56) | ((b[i + 1] as u64) << 48) | ((b[i + 2] as u64) << 40) | ((b[i
        + 3] as u64) << 32) | ((b[i + 4] as u64) << 24) | ((b[i + 5] as u64) << 16) | ((b[i
        + 6] as u64) << 8) | (b[i + 7] as u64)
}

/// Lane `j` of entry `t` of a four-lane schedule.
pub open spec fn lane_word(schedule: Seq<[u64; 4]>, t: int, j: int) -> u64 {
    schedule[t]@[j]
}

/// Lane `lane` of the schedule holds, for each round, the sum of the round's
/// schedule word for `block` and the round's constant.
pub open spec fn lane_scheduled(schedule: Seq<[u64; 4]>, lane: int, block: Seq<u8>) -> bool {
    forall|t: int|
        0 <= t < 80 ==> #[trigger] lane_word(schedule, t, lane) == schedule_word(block, t as nat)
            .wrapping_add(K@[t])
}

/// Fills one lane of the schedule from one block of 128 bytes and leaves the
/// other lanes alone.
pub fn message_schedule_lane(schedule: &mut [[u64; 4]; 80], block: &[u8], lane: usize)
    requires
        block@.len() == 128,
        lane < 4,
    ensures
        lane_scheduled(final(schedule)@, lane as int, block@),
        forall|t: int, j: int|
            0 <= t < 80 && 0 <= j < 4 && j != lane ==> #[trigger] lane_word(final(schedule)@, t, j)
                == lane_word(old(schedule)@, t, j),
{
    let mut w = [0u64;80];
    let mut t: usize = 0;
    while t < 16
        invariant
            block@.len() == 128,
            t <= 16,
            forall|i: int| 0 <= i < t ==> w@[i] == schedule_word(block@, i as nat),
        decreases 16 - t,
    {
        w[t] = load_be(block, 8 * t);
        t += 1;
    }
    while t < 80
        invariant
            16 <= t <= 80,
            forall|i: int| 0 <= i < t ==> w@[i] == schedule_word(block@, i as nat),
        decreases 80 - t,
    {
        let s0 = ssig0(w[t - 15]);
        let s1 = ssig1(w[t - 2]);
        w[t] = w[t - 16].wrapping_add(w[t - 7]).wrapping_add(s0.wrapping_add(s1));
        t += 1;
    }
    let ghost sch0 = schedule@;
    let mut t: usize = 0;
    while t < 80
        invariant
            lane < 4,
            t <= 80,
            forall|i: int| 0 <= i < 80 ==> w@[i] == schedule_word(block@, i as nat),
            forall|i: int|
                0 <= i < t ==> #[trigger] lane_word(schedule@, i, lane as int) == schedule_word(
                    block@,
                    i as nat,
                ).wrapping_add(K@[i]),
            forall|i: int, j: int|
                0 <= i < 80 && 0 <= j < 4 && j != lane ==> #[trigger] lane_word(schedule@, i, j)
                    == lane_word(sch0, i, j),
        decreases 80 - t,
    {
        let ghost schb = schedule@;
        let mut q = schedule[t];
        let ghost qb = q@;
        q[lane] = w[t].wrapping_add(K[t]);
        schedule[t] = q;
        proof {
            assert forall|i: int, j: int|
                0 <= i < 80 && 0 <= j < 4 && j != lane implies #[trigger] lane_word(
                schedule@,
                i,
                j,
            ) == lane_word(sch0, i, j) by {
                assert(lane_word(schb, i, j) == lane_word(sch0, i, j));
                if i == t {
                    assert(q@[j] == qb[j]);
                }
            }
            assert forall|i: int| 0 <= i < t + 1 implies #[trigger] lane_word(
                schedule@,
                i,
                lane as int,
            ) == schedule_word(block@, i as nat).wrapping_add(K@[i]) by {
                if i < t {
                    assert(lane_word(schb, i, lane as int) == schedule_word(block@, i as nat)
                        .wrapping_add(K@[i]));
                }
            }
        }
        t += 1;
    }
}

/// The message schedules of four consecutive blocks side by side: lane `j`
/// of entry `t` is the sum of word `t` of block `j`'s schedule and the
/// constant of round `t`.
pub fn sha512_quad_message_schedule(schedule: &mut [[u64; 4]; 80], message: &[u8])
    requires
        message@.len() == 512,
    ensures
        forall|j: int|
            0 <= j < 4 ==> lane_scheduled(
                final(schedule)@,
                j,
                #[trigger] message@.subrange(128 * j, 128 * j + 128),
            ),
{
    message_schedule_lane(schedule, slice_subrange(message, 0, 128), 0);
    let ghost s1 = schedule@;
    message_schedule_lane(schedule, slice_subrange(message, 128, 256), 1);
    let ghost s2 = schedule@;
    message_schedule_lane(schedule, slice_subrange(message, 256, 384), 2);
    let ghost s3 = schedule@;
    message_schedule_lane(schedule, slice_subrange(message, 384, 512), 3);
    proof {
        let b0 = message@.subrange(0, 128);
        let b1 = message@.subrange(128, 256);
        let b2 = message@.subrange(256, 384);
        assert forall|t: int| 0 <= t < 80 implies #[trigger] lane_word(schedule@, t, 0)
            == schedule_word(b0, t as nat).wrapping_add(K@[t]) by {
            assert(lane_word(schedule@, t, 0) == lane_word(s3, t, 0));
            assert(lane_word(s3, t, 0) == lane_word(s2, t, 0));
            assert(lane_word(s2, t, 0) == lane_word(s1, t, 0));
        }
        assert forall|t: int| 0 <= t < 80 implies #[trigger] lane_word(schedule@, t, 1)
            == schedule_word(b1, t as nat).wrapping_add(K@[t]) by {
            assert(lane_word(schedule@, t, 1) == lane_word(s3, t, 1));
            assert(lane_word(s3, t, 1) == lane_word(s2, t, 1));
        }
        assert forall|t: int| 0 <= t < 80 implies #[trigger] lane_word(schedule@, t, 2)
            == schedule_word(b2, t as nat).wrapping_add(K@[t]) by {
            assert(lane_word(schedule@, t, 2) == lane_word(s3, t, 2));
        }
        assert forall|j: int| 0 <= j < 4 implies lane_scheduled(
            schedule@,
            j,
            #[trigger] message@.subrange(128 * j, 128 * j + 128),
        ) by {
            if j == 0 {
            } else if j == 1 {
            } else if j == 2 {
            } else {
            }
        }
    }
}

/// Eighty rounds over the block whose schedule is in lane `lane`, and the
/// addition of the result into the chaining state.
fn compress_rounds(
    state: &mut [u64; 8],
    schedule: &[[u64; 4]; 80],
    lane: usize,
    Ghost(block): Ghost<Seq<u8>>,
)
    requires
        lane < 4,
        lane_scheduled(schedule@, lane as int, block),
    ensures
        final(state)@ == compress_block(old(state)@, block),
{
    let ghost s0 = state@;
    let mut a = state[0];
    let mut b = state[1];
    let mut c = state[2];
    let mut d = state[3];
    let mut e = state[4];
    let mut f = state[5];
    let mut g = state[6];
    let mut h = state[7];
    assert(seq![a, b, c, d, e, f, g, h] =~= s0);
    let mut t: usize = 0;
    while t < 80
        invariant
            lane < 4,
            t <= 80,
            lane_scheduled(schedule@, lane as int, block),
            seq![a, b, c, d, e, f, g, h] == rounds(s0, block, t as nat),
        decreases 80 - t,
    {
        let ghost prev = seq![a, b, c, d, e, f, g, h];
        let q = schedule[t];
        let kw = q[lane];
        assert(kw == schedule_word(block, t as nat).wrapping_add(K@[t as int])) by {
            assert(lane_word(schedule@, t as int, lane as int) == kw);
        }
        let t1 = h.wrapping_add(bsig1(e)).wrapping_add(ch(e, f, g)).wrapping_add(kw);
        let t2 = bsig0(a).wrapping_add(maj(a, b, c));
        h = g;
        g = f;
        f = e;
        e = d.wrapping_add(t1);
        d = c;
        c = b;
        b = a;
        a = t1.wrapping_add(t2);
        t += 1;
        assert(seq![a, b, c, d, e, f, g, h] =~= round(prev, kw));
    }
    state[0] = state[0].wrapping_add(a);
    state[1] = state[1].wrapping_add(b);
    state[2] = state[2].wrapping_add(c);
    state[3] = state[3].wrapping_add(d);
    state[4] = state[4].wrapping_add(e);
    state[5] = state[5].wrapping_add(f);
    state[6] = state[6].wrapping_add(g);
    state[7] = state[7].wrapping_add(h);
    assert(state@ =~= compress_block(s0, block));
}

/// Compressing from an offset takes the block at that offset first.
pub proof fn lemma_compress_blocks_step(s: Seq<u64>, data: Seq<u8>, off: int)
    requires
        0 <= off,
        off + 128 <= data.len(),
    ensures
        compress_blocks(s, data.subrange(off, data.len() as int)) == compress_blocks(
            compress_block(s, data.subrange(off, off + 128)),
            data.subrange(off + 128, data.len() as int),
        ),
{
    let d = data.subrange(off, data.len() as int);
    assert(d.subrange(0, 128) =~= data.subrange(off, off + 128));
    assert(d.subrange(128, d.len() as int) =~= data.subrange(off + 128, data.len() as int));
}

/// Compressing all of `data` is compressing its first `k` blocks and then
/// the rest.
pub proof fn lemma_compress_blocks_split(s: Seq<u64>, data: Seq<u8>, k: nat)
    requires
        128 * k <= data.len(),
    ensures
        compress_blocks(s, data) == compress_blocks(
            compress_blocks(s, data.subrange(0, 128 * k as int)),
            data.subrange(128 * k as int, data.len() as int),
        ),
    decreases k,
{
    let n = data.len() as int;
    if k == 0 {
        assert(data.subrange(0, n) =~= data);
    } else {
        let s1 = compress_block(s, data.subrange(0, 128));
        let rest = data.subrange(128, n);
        lemma_compress_blocks_split(s1, rest, (k - 1) as nat);
        let head = data.subrange(0, 128 * k as int);
        assert(head.subrange(0, 128) =~= data.subrange(0, 128));
        assert(head.subrange(128, head.len() as int) =~= rest.subrange(0, 128 * (k - 1) as int));
        assert(rest.subrange(128 * (k - 1) as int, rest.len() as int) =~= data.subrange(
            128 * k as int,
            n,
        ));
    }
}

/// Less than one block of input leaves the state as it is.
pub proof fn lemma_compress_blocks_short(s: Seq<u64>, data: Seq<u8>)
    requires
        data.len() < 128,
    ensures
        compress_blocks(s, data) == s,
{
}

/// Updates the chaining state over four consecutive blocks, that is over
/// exactly 512 bytes.
pub fn sha512_compress_4_blocks(state: &mut [u64; 8], block4: &[u8])
    requires
        block4@.len() == 512,
    ensures
        final(state)@ == compress_blocks(old(state)@, block4@),
{
    let ghost s0 = state@;
    let ghost d = block4@;
    let mut w = [[0u64;4];80];
    sha512_quad_message_schedule(&mut w, block4);
    proof {
        assert(lane_scheduled(w@, 0, d.subrange(128 * 0int, 128 * 0int + 128)));
        assert(lane_scheduled(w@, 1, d.subrange(128 * 1int, 128 * 1int + 128)));
        assert(lane_scheduled(w@, 2, d.subrange(128 * 2int, 128 * 2int + 128)));
        assert(lane_scheduled(w@, 3, d.subrange(128 * 3int, 128 * 3int + 128)));
    }
    compress_rounds(state, &w, 0, Ghost(d.subrange(0, 128)));
    compress_rounds(state, &w, 1, Ghost(d.subrange(128, 256)));
    compress_rounds(state, &w, 2, Ghost(d.subrange(256, 384)));
    compress_rounds(state, &w, 3, Ghost(d.subrange(384, 512)));
    proof {
        assert(d.subrange(0, 512) =~= d);
        lemma_compress_blocks_step(s0, d, 0);
        let s1 = compress_block(s0, d.subrange(0, 128));
        lemma_compress_blocks_step(s1, d, 128);
        let s2 = compress_block(s1, d.subrange(128, 256));
        lemma_compress_blocks_step(s2, d, 256);
        let s3 = compress_block(s2, d.subrange(256, 384));
        lemma_compress_blocks_step(s3, d, 384);
        let s4 = compress_block(s3, d.subrange(384, 512));
        lemma_compress_blocks_short(s4, d.subrange(512, 512));
    }
}

/// Updates the chaining state over every whole block of `blocks`, in order:
/// four blocks at a time while at least four are left, then one by one.
/// Bytes after the last whole block are not used.
pub fn sha512_compress_blocks(state: &mut [u64; 8], blocks: &[u8])
    ensures
        final(state)@ == compress_blocks(old(state)@, blocks@),
{
    let ghost s0 = state@;
    let n = blocks.len();
    let mut off: usize = 0;
    proof {
        assert(blocks@.subrange(0, n as int) =~= blocks@);
    }
    while n - off >= 512
        invariant
            n == blocks@.len(),
            off <= n,
            compress_blocks(state@, blocks@.subrange(off as int, n as int)) == compress_blocks(
                s0,
                blocks@,
            ),
        decreases n - off,
    {
        let ghost sb = state@;
        let block4 = slice_subrange(blocks, off, off + 512);
        sha512_compress_4_blocks(state, block4);
        proof {
            let rest = blocks@.subrange(off as int, n as int);
            lemma_compress_blocks_split(sb, rest, 4);
            assert(rest.subrange(0, 512) =~= block4@);
            assert(rest.subrange(512, rest.len() as int) =~= blocks@.subrange(
                off as int + 512,
                n as int,
            ));
        }
        off += 512;
    }
    let mut w = [[0u64;4];80];
    while n - off >= 128
        invariant
            n == blocks@.len(),
            off <= n,
            compress_blocks(state@, blocks@.subrange(off as int, n as int)) == compress_blocks(
                s0,
                blocks@,
            ),
        decreases n - off,
    {
        let ghost sb = state@;
        let block = slice_subrange(blocks, off, off + 128);
        message_schedule_lane(&mut w, block, 0);
        compress_rounds(state, &w, 0, Ghost(block@));
        proof {
            lemma_compress_blocks_step(sb, blocks@, off as int);
        }
        off += 128;
    }
    proof {
        lemma_compress_blocks_short(state@, blocks@.subrange(off as int, n as int));
    }
}

} // verus!
