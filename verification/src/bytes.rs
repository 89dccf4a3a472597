//! Little-endian byte strings of a chosen width, as a mathematical
//! specification together with verified executable conversions.
//!
//! `le_bytes(v, w)` is the `w`-byte little-endian encoding of `v`, and
//! `le_value(s)` reads a byte string back as a number. Every fixed-width
//! scalar encoding in this crate is an instance of these two functions.

use vstd::prelude::*;

verus! {

/// `256^w`: the number of values a `w`-byte string can hold.
pub open spec fn pow256(w: nat) -> nat
    decreases w,
{
    if w == 0 {
        1
    } else {
        256 * pow256((w - 1) as nat)
    }
}

/// The `w`-byte little-endian encoding of `v` (high bytes beyond `w` are dropped).
pub open spec fn le_bytes(v: nat, w: nat) -> Seq<u8>
    decreases w,
{
    if w == 0 {
        Seq::empty()
    } else {
        seq![(v % 256) as u8] + le_bytes(v / 256, (w - 1) as nat)
    }
}

/// The number encoded by the little-endian byte string `s`.
pub open spec fn le_value(s: Seq<u8>) -> nat
    decreases s.len(),
{
    if s.len() == 0 {
        0
    } else {
        (s[0] + 256 * le_value(s.skip(1))) as nat
    }
}

/// `n` zero bytes: the padding written after a short union variant.
pub open spec fn zero_bytes(n: nat) -> Seq<u8> {
    Seq::new(n, |i| 0u8)
}

pub proof fn lemma_pow256_positive(w: nat)
    ensures
        pow256(w) >= 1,
    decreases w,
{
    if w > 0 {
        lemma_pow256_positive((w - 1) as nat);
    }
}

pub proof fn lemma_pow256_increases(w1: nat, w2: nat)
    requires
        w1 <= w2,
    ensures
        pow256(w1) <= pow256(w2),
    decreases w2,
{
    if w1 < w2 {
        lemma_pow256_increases(w1, (w2 - 1) as nat);
        lemma_pow256_positive((w2 - 1) as nat);
    }
}

pub proof fn lemma_le_bytes_len(v: nat, w: nat)
    ensures
        le_bytes(v, w).len() == w,
    decreases w,
{
    if w > 0 {
        lemma_le_bytes_len(v / 256, (w - 1) as nat);
    }
}

/// Encoding then decoding a number below `256^w` gives the number back.
pub proof fn lemma_le_value_le_bytes(v: nat, w: nat)
    requires
        v < pow256(w),
    ensures
        le_value(le_bytes(v, w)) == v,
    decreases w,
{
    if w > 0 {
        let head: u8 = (v % 256) as u8;
        let tail = le_bytes(v / 256, (w - 1) as nat);
        assert((seq![head] + tail).skip(1) =~= tail);
        assert(v / 256 < pow256((w - 1) as nat));
        lemma_le_value_le_bytes(v / 256, (w - 1) as nat);
    }
}

/// A `w`-byte string always decodes to a number below `256^w`.
pub proof fn lemma_le_value_bound(s: Seq<u8>)
    ensures
        le_value(s) < pow256(s.len()),
    decreases s.len(),
{
    if s.len() > 0 {
        lemma_le_value_bound(s.skip(1));
    }
}

/// Appends the `w`-byte little-endian encoding of `v` to `out`.
pub fn write_le_bytes(out: &mut Vec<u8>, v: u128, w: usize)
    ensures
        final(out)@ == old(out)@ + le_bytes(v as nat, w as nat),
{
    let ghost prefix = out@;
    let mut x: u128 = v;
    let mut i: usize = 0;
    while i < w
        invariant
            i <= w,
            out@.len() == prefix.len() + i,
            le_bytes(v as nat, w as nat) == out@.skip(prefix.len() as int) + le_bytes(
                x as nat,
                (w - i) as nat,
            ),
            out@.subrange(0, prefix.len() as int) == prefix,
        decreases w - i,
    {
        let b: u8 = (x % 256) as u8;
        let ghost before = out@;
        out.push(b);
        proof {
            assert(out@.skip(prefix.len() as int) =~= before.skip(prefix.len() as int)
                + seq![b]);
            assert(before.skip(prefix.len() as int) + seq![b] + le_bytes(
                (x / 256) as nat,
                (w - i - 1) as nat,
            ) =~= before.skip(prefix.len() as int) + (seq![b] + le_bytes(
                (x / 256) as nat,
                (w - i - 1) as nat,
            )));
            assert(out@.subrange(0, prefix.len() as int) =~= prefix);
        }
        x = x / 256;
        i = i + 1;
    }
    proof {
        lemma_le_bytes_len(v as nat, w as nat);
        assert(final(out)@ =~= prefix + le_bytes(v as nat, w as nat));
    }
}

/// Reads the `w`-byte little-endian number stored at `bytes[start..start + w]`.
pub fn read_le_bytes(bytes: &[u8], start: usize, w: usize) -> (r: u128)
    requires
        start + w <= bytes@.len(),
        w <= 16,
    ensures
        r as nat == le_value(bytes@.subrange(start as int, (start + w) as int)),
        (r as nat) < pow256(w as nat),
{
    let n: usize = bytes.len();
    let mut r: u128 = 0;
    let mut j: usize = w;
    proof {
        assert(pow256(16) == 0x100000000000000000000000000000000) by {
            reveal_with_fuel(pow256, 17);
        }
    }
    while j > 0
        invariant
            j <= w,
            w <= 16,
            start + w <= n,
            n == bytes@.len(),
            r as nat == le_value(bytes@.subrange((start + j) as int, (start + w) as int)),
            (r as nat) < pow256((w - j) as nat),
            pow256(16) == 0x100000000000000000000000000000000,
        decreases j,
    {
        proof {
            lemma_pow256_increases((w - j) as nat, 15);
            assert(pow256(15) * 256 == pow256(16));
        }
        let b: u8 = bytes[start + j - 1];
        r = r * 256 + (b as u128);
        j = j - 1;
        proof {
            let s = bytes@.subrange((start + j) as int, (start + w) as int);
            assert(s[0] == b);
            assert(s.skip(1) =~= bytes@.subrange((start + j + 1) as int, (start + w) as int));
        }
    }
    proof {
        assert(bytes@.subrange((start + j) as int, (start + w) as int) =~= bytes@.subrange(
            start as int,
            (start + w) as int,
        ));
    }
    r
}

/// Appends `n` zero bytes to `out`.
pub fn write_zero_bytes(out: &mut Vec<u8>, n: usize)
    ensures
        final(out)@ == old(out)@ + zero_bytes(n as nat),
{
    let ghost prefix = out@;
    let mut i: usize = 0;
    while i < n
        invariant
            i <= n,
            out@ == prefix + zero_bytes(i as nat),
        decreases n - i,
    {
        out.push(0u8);
        proof {
            assert(out@ =~= prefix + zero_bytes((i + 1) as nat));
        }
        i = i + 1;
    }
}

} // verus!
