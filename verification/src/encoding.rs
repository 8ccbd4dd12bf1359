//! Fixed-width big-endian byte strings and the limb vectors they encode.

use vstd::prelude::*;
use crate::limbs::{lemma_value_full, lemma_value_prepend, limbs_value};

verus! {

/// The number that a big-endian byte string stands for.
pub open spec fn be_value(b: Seq<u8>) -> nat
    decreases b.len(),
{
    if b.len() == 0 {
        0
    } else {
        256 * be_value(b.drop_last()) + b.last() as nat
    }
}

/// The number that the eight bytes from index `k` on stand for, big-endian.
pub open spec fn be_word(b: Seq<u8>, k: int) -> nat {
    (0x100_0000_0000_0000 * b[k] + 0x1_0000_0000_0000 * b[k + 1] + 0x100_0000_0000 * b[k + 2]
        + 0x1_0000_0000 * b[k + 3] + 0x100_0000 * b[k + 4] + 0x1_0000 * b[k + 5] + 0x100 * b[k + 6]
        + b[k + 7]) as nat
}

/// One more byte multiplies the value by 256 and adds the byte.
pub proof fn lemma_be_step(b: Seq<u8>, j: int)
    requires
        0 <= j < b.len(),
    ensures
        be_value(b.subrange(0, j + 1)) == 256 * be_value(b.subrange(0, j)) + b[j],
{
    let t = b.subrange(0, j + 1);
    assert(t.drop_last() =~= b.subrange(0, j));
    assert(t.last() == b[j]);
}

/// Eight more bytes multiply the value by `2^64` and add the word they
/// form.
pub proof fn lemma_be_append_word(b: Seq<u8>, k: int)
    requires
        0 <= k,
        k + 8 <= b.len(),
    ensures
        be_value(b.subrange(0, k + 8)) == 0x1_0000_0000_0000_0000 * be_value(b.subrange(0, k))
            + be_word(b, k),
{
    lemma_be_step(b, k);
    lemma_be_step(b, k + 1);
    lemma_be_step(b, k + 2);
    lemma_be_step(b, k + 3);
    lemma_be_step(b, k + 4);
    lemma_be_step(b, k + 5);
    lemma_be_step(b, k + 6);
    lemma_be_step(b, k + 7);
}

/// Only the all-zero byte string has value zero.
pub proof fn lemma_be_zero(b: Seq<u8>)
    ensures
        be_value(b) == 0 <==> (forall|i: int| 0 <= i < b.len() ==> b[i] == 0),
    decreases b.len(),
{
    if b.len() > 0 {
        let d = b.drop_last();
        lemma_be_zero(d);
        if be_value(b) == 0 {
            assert(be_value(d) == 0 && b.last() == 0);
            assert forall|i: int| 0 <= i < b.len() implies b[i] == 0 by {
                if i < b.len() - 1 {
                    assert(d[i] == b[i]);
                }
            }
        }
        if forall|i: int| 0 <= i < b.len() ==> b[i] == 0 {
            assert forall|i: int| 0 <= i < d.len() implies d[i] == 0 by {
                assert(d[i] == b[i]);
            }
            assert(b.last() == b[b.len() - 1]);
        }
    }
}

/// Byte strings of one length with one value are the same string.
pub proof fn lemma_be_injective(a: Seq<u8>, b: Seq<u8>)
    requires
        a.len() == b.len(),
        be_value(a) == be_value(b),
    ensures
        a == b,
    decreases a.len(),
{
    if a.len() == 0 {
        assert(a =~= b);
    } else {
        let x = be_value(a.drop_last());
        let y = be_value(b.drop_last());
        assert(256 * x + a.last() == 256 * y + b.last());
        assert(a.last() == b.last() && x == y);
        lemma_be_injective(a.drop_last(), b.drop_last());
        assert(a =~= b) by {
            assert forall|i: int| 0 <= i < a.len() implies a[i] == b[i] by {
                if i < a.len() - 1 {
                    assert(a.drop_last()[i] == a[i]);
                    assert(b.drop_last()[i] == b[i]);
                }
            }
        }
    }
}

/// Reads the big-endian word at byte `k`.
pub fn word_from_be(b: &[u8], k: usize) -> (w: u64)
    requires
        k + 8 <= b@.len(),
    ensures
        w == be_word(b@, k as int),
{
    let w0 = b[k] as u64;
    let w1 = 256 * w0 + (b[k + 1] as u64);
    let w2 = 256 * w1 + (b[k + 2] as u64);
    let w3 = 256 * w2 + (b[k + 3] as u64);
    let w4 = 256 * w3 + (b[k + 4] as u64);
    let w5 = 256 * w4 + (b[k + 5] as u64);
    let w6 = 256 * w5 + (b[k + 6] as u64);
    let w7 = 256 * w6 + (b[k + 7] as u64);
    w7
}

/// Writes `w` as the big-endian word at byte `k` and leaves the other bytes
/// alone.
pub fn word_to_be(out: &mut [u8], k: usize, w: u64)
    requires
        k + 8 <= old(out)@.len(),
    ensures
        final(out)@.len() == old(out)@.len(),
        be_word(final(out)@, k as int) == w,
        forall|i: int|
            0 <= i < old(out)@.len() && !(k <= i < k + 8) ==> final(out)@[i] == old(out)@[i],
{
    let b7 = (w % 256) as u8;
    let w1 = w / 256;
    let b6 = (w1 % 256) as u8;
    let w2 = w1 / 256;
    let b5 = (w2 % 256) as u8;
    let w3 = w2 / 256;
    let b4 = (w3 % 256) as u8;
    let w4 = w3 / 256;
    let b3 = (w4 % 256) as u8;
    let w5 = w4 / 256;
    let b2 = (w5 % 256) as u8;
    let w6 = w5 / 256;
    let b1 = (w6 % 256) as u8;
    let w7 = w6 / 256;
    let b0 = (w7 % 256) as u8;
    out[k] = b0;
    out[k + 1] = b1;
    out[k + 2] = b2;
    out[k + 3] = b3;
    out[k + 4] = b4;
    out[k + 5] = b5;
    out[k + 6] = b6;
    out[k + 7] = b7;
}

/// Decodes a big-endian byte string of `8 N` bytes into `N` limbs.
pub fn limbs_from_be_bytes<const N: usize>(bytes: &[u8]) -> (z: [u64; N])
    requires
        bytes@.len() == 8 * N,
    ensures
        limbs_value(z@) == be_value(bytes@),
        forall|c: int| 0 <= c < N ==> #[trigger] z@[N - 1 - c] == be_word(bytes@, 8 * c),
{
    let mut z = [0u64;N];
    let len = bytes.len();
    let mut c: usize = 0;
    proof {
        assert(limbs_value(z@.subrange(N as int, N as int)) == 0);
        assert(be_value(bytes@.subrange(0, 0)) == 0);
    }
    while c < N
        invariant
            bytes@.len() == 8 * N,
            len == 8 * N,
            c <= N,
            limbs_value(z@.subrange(N - c, N as int)) == be_value(bytes@.subrange(0, 8 * c)),
            forall|d: int| 0 <= d < c ==> #[trigger] z@[N - 1 - d] == be_word(bytes@, 8 * d),
        decreases N - c,
    {
        let ghost zb = z@;
        let w = word_from_be(bytes, 8 * c);
        z[N - 1 - c] = w;
        proof {
            let i = N - 1 - c;
            lemma_value_prepend(z@, i);
            assert(z@.subrange(i + 1, N as int) =~= zb.subrange(N - c, N as int));
            lemma_be_append_word(bytes@, 8 * c);
        }
        c += 1;
    }
    proof {
        lemma_value_full(z@);
        assert(bytes@.subrange(0, 8 * N) =~= bytes@);
    }
    z
}

/// Encodes `N` limbs as the big-endian byte string of `8 N` bytes from
/// byte `off` of `out` on, and leaves the bytes before and after alone.
pub fn limbs_to_be_bytes<const N: usize>(out: &mut [u8], off: usize, x: &[u64; N])
    requires
        off + 8 * N <= old(out)@.len(),
    ensures
        final(out)@.len() == old(out)@.len(),
        be_value(final(out)@.subrange(off as int, off + 8 * N)) == limbs_value(x@),
        forall|i: int|
            0 <= i < old(out)@.len() && !(off <= i < off + 8 * N) ==> final(out)@[i] == old(
                out,
            )@[i],
{
    let ghost o0 = out@;
    let len = out.len();
    let mut c: usize = 0;
    proof {
        assert(limbs_value(x@.subrange(N as int, N as int)) == 0);
        assert(be_value(out@.subrange(off as int, off as int).subrange(0, 0)) == 0);
    }
    while c < N
        invariant
            off + 8 * N <= len,
            len == out@.len(),
            out@.len() == o0.len(),
            c <= N,
            be_value(out@.subrange(off as int, off + 8 * c)) == limbs_value(
                x@.subrange(N - c, N as int),
            ),
            forall|i: int| 0 <= i < o0.len() && !(off <= i < off + 8 * N) ==> out@[i] == o0[i],
        decreases N - c,
    {
        let ghost ob = out@;
        word_to_be(out, off + 8 * c, x[N - 1 - c]);
        proof {
            let i = N - 1 - c;
            let o = off as int;
            lemma_value_prepend(x@, i);
            let win = out@.subrange(o, o + 8 * c + 8);
            lemma_be_append_word(win, 8 * c);
            assert(win.subrange(0, 8 * c + 8) =~= win);
            assert(win.subrange(0, 8 * c) =~= ob.subrange(o, o + 8 * c));
            assert(be_word(win, 8 * c) == be_word(out@, o + 8 * c));
        }
        c += 1;
    }
    proof {
        lemma_value_full(x@);
    }
}

} // verus!
