//! Little-endian numbers in byte sequences, and the two bulk writes on byte slices that the tables
//! need.

use vstd::prelude::*;

verus! {

/// The 16-bit little-endian number at position `at`.
pub open spec fn le16(b: Seq<u8>, at: int) -> int {
    b[at] + 256 * b[at + 1]
}

/// The two bytes that hold `x` in little-endian order.
pub open spec fn le16_bytes(x: int) -> Seq<u8> {
    seq![(x % 256) as u8, (x / 256) as u8]
}

/// `n` zero bytes.
pub open spec fn zeros(n: int) -> Seq<u8> {
    Seq::new(n as nat, |j: int| 0u8)
}

/// `b` with `s` written over it from position `at` on.
pub open spec fn splice(b: Seq<u8>, at: int, s: Seq<u8>) -> Seq<u8> {
    Seq::new(b.len(), |j: int| if at <= j < at + s.len() { s[j - at] } else { b[j] })
}

/// `b` with zeros from position `from` up to `to`.
pub open spec fn zeroed(b: Seq<u8>, from: int, to: int) -> Seq<u8> {
    Seq::new(b.len(), |j: int| if from <= j < to { 0u8 } else { b[j] })
}

/// `a` and `b` are equally long and differ at most from position `from` up to `to`.
pub open spec fn same_outside(a: Seq<u8>, b: Seq<u8>, from: int, to: int) -> bool {
    &&& a.len() == b.len()
    &&& forall|j: int| #![trigger b[j]] 0 <= j < b.len() && !(from <= j < to) ==> b[j] == a[j]
}

/// Combines a low and a high byte.
pub(crate) fn u16_from_le(lo: u8, hi: u8) -> (x: u16)
    ensures
        x == lo + 256 * hi,
{
    lo as u16 + 256 * (hi as u16)
}

/// Splits a number into its low and its high byte.
pub(crate) fn u16_to_le(x: u16) -> (r: [u8; 2])
    ensures
        r@ == le16_bytes(x as int),
        x == r@[0] + 256 * r@[1],
{
    let r = [(x % 256) as u8, (x / 256) as u8];
    assert(r@ =~= le16_bytes(x as int));
    r
}

/// Writes `src` over `dst` from position `at` on.
pub(crate) fn copy_into(dst: &mut [u8], at: usize, src: &[u8])
    requires
        at + src@.len() <= old(dst)@.len(),
    ensures
        final(dst)@ == splice(old(dst)@, at as int, src@),
{
    let mut k: usize = 0;
    while k < src.len()
        invariant
            k <= src@.len(),
            at + src@.len() <= dst.len(),
            dst@.len() == old(dst)@.len(),
            dst@ == splice(old(dst)@, at as int, src@.take(k as int)),
        decreases src@.len() - k,
    {
        dst[at + k] = src[k];
        k = k + 1;
        assert(dst@ =~= splice(old(dst)@, at as int, src@.take(k as int)));
    }
    assert(src@.take(k as int) =~= src@);
}

/// Writes zeros over `dst` from position `from` up to `to`.
pub(crate) fn fill_zero(dst: &mut [u8], from: usize, to: usize)
    requires
        from <= to <= old(dst)@.len(),
    ensures
        final(dst)@ == zeroed(old(dst)@, from as int, to as int),
{
    let mut k: usize = from;
    while k < to
        invariant
            from <= k <= to <= old(dst)@.len(),
            dst@.len() == old(dst)@.len(),
            dst@ == zeroed(old(dst)@, from as int, k as int),
        decreases to - k,
    {
        dst[k] = 0;
        k = k + 1;
        assert(dst@ =~= zeroed(old(dst)@, from as int, k as int));
    }
}

} // verus!
