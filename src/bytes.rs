use scroll::{Pread, Pwrite};
use vstd::prelude::*;

verus! {

/// The value of four bytes read as a little-endian unsigned integer.
pub open spec fn u32_from_le(b0: u8, b1: u8, b2: u8, b3: u8) -> u32 {
    (b0 as u32) | ((b1 as u32) << 8u32) | ((b2 as u32) << 16u32) | ((b3 as u32) << 24u32)
}

/// The little-endian integer stored in `b` at `at .. at + 4`.
pub open spec fn le32_at(b: Seq<u8>, at: int) -> u32 {
    u32_from_le(b[at], b[at + 1], b[at + 2], b[at + 3])
}

/// The four little-endian bytes of `v`.
pub open spec fn le32_bytes(v: u32) -> Seq<u8> {
    seq![
        (v & 0xffu32) as u8,
        ((v >> 8u32) & 0xffu32) as u8,
        ((v >> 16u32) & 0xffu32) as u8,
        ((v >> 24u32) & 0xffu32) as u8,
    ]
}

/// `b` with the bytes at `at .. at + w.len()` replaced by `w`.
pub open spec fn splice(b: Seq<u8>, at: int, w: Seq<u8>) -> Seq<u8> {
    b.subrange(0, at) + w + b.subrange(at + w.len(), b.len() as int)
}

/// Reading back the encoding of a value yields the value.
pub proof fn lemma_le32_round_trip(v: u32)
    ensures
        le32_at(le32_bytes(v), 0) == v,
{
    let b = le32_bytes(v);
    assert(((v & 0xffu32) as u8 as u32) | ((((v >> 8u32) & 0xffu32) as u8 as u32) << 8u32) | ((((
    v >> 16u32) & 0xffu32) as u8 as u32) << 16u32) | ((((v >> 24u32) & 0xffu32) as u8 as u32)
        << 24u32) == v) by (bit_vector);
}

/// Four zero bytes encode zero.
pub proof fn lemma_le32_zero(b: Seq<u8>, at: int)
    requires
        0 <= at,
        at + 4 <= b.len(),
        b[at] == 0,
        b[at + 1] == 0,
        b[at + 2] == 0,
        b[at + 3] == 0,
    ensures
        le32_at(b, at) == 0,
{
    assert(u32_from_le(0u8, 0u8, 0u8, 0u8) == 0u32) by (bit_vector);
}

/// Relies on scroll's `Pread::pread_with::<u32>` with `scroll::LE` on a byte
/// slice: it fails when fewer than four bytes remain at `offset`, and otherwise
/// returns those four bytes read as a little-endian integer.
#[verifier::external_body]
pub(crate) fn read_u32_le(bytes: &[u8], offset: usize) -> (r: Option<u32>)
    ensures
        offset + 4 <= bytes@.len() ==> r == Some(le32_at(bytes@, offset as int)),
        offset + 4 > bytes@.len() ==> r is None,
{
    bytes.pread_with::<u32>(offset, scroll::LE).ok()
}

/// Relies on scroll's `Pwrite::pwrite_with::<u32>` with `scroll::LE` on a byte
/// slice: it fails without writing when fewer than four bytes remain at
/// `offset`, and otherwise stores the little-endian bytes of `v` there.
#[verifier::external_body]
pub(crate) fn write_u32_le(dst: &mut Vec<u8>, offset: usize, v: u32) -> (ok: bool)
    ensures
        ok == (offset + 4 <= old(dst)@.len()),
        ok ==> final(dst)@ == splice(old(dst)@, offset as int, le32_bytes(v)),
        !ok ==> final(dst)@ == old(dst)@,
{
    dst.as_mut_slice().pwrite_with::<u32>(v, offset, scroll::LE).is_ok()
}

/// The two little-endian bytes of `v`.
pub open spec fn le16_bytes(v: u16) -> Seq<u8> {
    seq![(v & 0xffu16) as u8, ((v >> 8u16) & 0xffu16) as u8]
}

/// `n` zero bytes.
pub open spec fn zeros(n: int) -> Seq<u8> {
    Seq::new(n as nat, |_i: int| 0u8)
}

/// Writing `x` right after `p` placed at `at` in `b` places `p + x` there.
pub proof fn lemma_splice_extend(b: Seq<u8>, at: int, p: Seq<u8>, x: Seq<u8>)
    requires
        0 <= at,
        at + p.len() + x.len() <= b.len(),
    ensures
        splice(splice(b, at, p), at + p.len(), x) == splice(b, at, p + x),
{
    assert(splice(splice(b, at, p), at + p.len(), x) =~= splice(b, at, p + x));
}

/// Relies on scroll's `Pwrite::pwrite_with::<u16>` with `scroll::LE` on a byte
/// slice: it fails without writing when fewer than two bytes remain at
/// `offset`, and otherwise stores the little-endian bytes of `v` there.
#[verifier::external_body]
pub(crate) fn write_u16_le(dst: &mut Vec<u8>, offset: usize, v: u16) -> (ok: bool)
    ensures
        ok == (offset + 2 <= old(dst)@.len()),
        ok ==> final(dst)@ == splice(old(dst)@, offset as int, le16_bytes(v)),
        !ok ==> final(dst)@ == old(dst)@,
{
    dst.as_mut_slice().pwrite_with::<u16>(v, offset, scroll::LE).is_ok()
}

/// Copies `src` into `dst` at `pos`.
pub fn copy_into(dst: &mut Vec<u8>, pos: usize, src: &[u8])
    requires
        pos + src@.len() <= old(dst)@.len(),
    ensures
        final(dst)@ == splice(old(dst)@, pos as int, src@),
{
    let ghost orig = dst@;
    assert(orig.len() == dst.len());
    let mut i: usize = 0;
    while i < src.len()
        invariant
            pos + src@.len() <= orig.len(),
            orig.len() <= usize::MAX,
            i <= src@.len(),
            dst@ == splice(orig, pos as int, src@.subrange(0, i as int)),
        decreases src@.len() - i,
    {
        dst.set(pos + i, src[i]);
        i += 1;
        assert(dst@ =~= splice(orig, pos as int, src@.subrange(0, i as int)));
    }
    assert(src@.subrange(0, src@.len() as int) =~= src@);
}

/// Fills `dst[pos .. pos + n]` with zeros.
pub fn fill_zeros(dst: &mut Vec<u8>, pos: usize, n: usize)
    requires
        pos + n <= old(dst)@.len(),
    ensures
        final(dst)@ == splice(old(dst)@, pos as int, zeros(n as int)),
{
    let ghost orig = dst@;
    assert(orig.len() == dst.len());
    let mut i: usize = 0;
    while i < n
        invariant
            pos + n <= orig.len(),
            orig.len() <= usize::MAX,
            i <= n,
            dst@ == splice(orig, pos as int, zeros(i as int)),
        decreases n - i,
    {
        dst.set(pos + i, 0u8);
        i += 1;
        assert(dst@ =~= splice(orig, pos as int, zeros(i as int)));
    }
}

} // verus!
