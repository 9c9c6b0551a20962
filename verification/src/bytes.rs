//! Little-endian readers and writers for the fixed-width header fields,
//! with the arithmetic facts that tie reading back to writing.

use vstd::prelude::*;

verus! {

/// The two little-endian bytes of a 16-bit value.
pub open spec fn u16_le(x: u16) -> Seq<u8> {
    seq![(x % 256) as u8, (x / 256) as u8]
}

/// The 16-bit value read from two little-endian bytes.
pub open spec fn le16(b0: u8, b1: u8) -> u16 {
    (b0 + 256 * b1) as u16
}

/// The four little-endian bytes of a 32-bit value.
pub open spec fn u32_le(x: u32) -> Seq<u8> {
    seq![
        (x % 256) as u8,
        ((x / 256) % 256) as u8,
        ((x / 65536) % 256) as u8,
        (x / 16777216) as u8,
    ]
}

/// The 32-bit value read from four little-endian bytes.
pub open spec fn le32(b0: u8, b1: u8, b2: u8, b3: u8) -> u32 {
    (b0 + 256 * b1 + 65536 * b2 + 16777216 * b3) as u32
}

/// The 64-bit value read from eight little-endian bytes.
pub open spec fn le64(b: Seq<u8>) -> u64
    recommends
        b.len() == 8,
{
    (le32(b[0], b[1], b[2], b[3]) + 0x1_0000_0000 * le32(b[4], b[5], b[6], b[7])) as u64
}

/// The eight little-endian bytes of a 64-bit value.
pub open spec fn u64_le(x: u64) -> Seq<u8> {
    u32_le((x % 0x1_0000_0000) as u32) + u32_le((x / 0x1_0000_0000) as u32)
}

/// Reading the two bytes written for a 16-bit value gives the value back.
pub proof fn lemma_le16_round_trip(x: u16)
    ensures
        le16(u16_le(x)[0], u16_le(x)[1]) == x,
{
    assert(x % 256 + 256 * (x / 256) == x) by (nonlinear_arith);
}

/// Reading the four bytes written for a 32-bit value gives the value back.
pub proof fn lemma_le32_round_trip(x: u32)
    ensures
        le32(u32_le(x)[0], u32_le(x)[1], u32_le(x)[2], u32_le(x)[3]) == x,
{
    assert(x % 256 + 256 * ((x / 256) % 256) + 65536 * ((x / 65536) % 256) + 16777216 * (x
        / 16777216) == x) by (nonlinear_arith);
}

/// Reading the eight bytes written for a 64-bit value gives it back.
pub proof fn lemma_le64_round_trip(x: u64)
    ensures
        le64(u64_le(x)) == x,
{
    let lo = (x % 0x1_0000_0000) as u32;
    let hi = (x / 0x1_0000_0000) as u32;
    lemma_le32_round_trip(lo);
    lemma_le32_round_trip(hi);
    let b = u64_le(x);
    assert(b[0] == u32_le(lo)[0] && b[1] == u32_le(lo)[1] && b[2] == u32_le(lo)[2] && b[3]
        == u32_le(lo)[3]);
    assert(b[4] == u32_le(hi)[0] && b[5] == u32_le(hi)[1] && b[6] == u32_le(hi)[2] && b[7]
        == u32_le(hi)[3]);
    assert(x % 0x1_0000_0000 + 0x1_0000_0000 * (x / 0x1_0000_0000) == x) by (nonlinear_arith);
}

/// Reads a 16-bit little-endian value at `off`.
pub fn read_u16(b: &[u8], off: usize) -> (r: u16)
    requires
        off + 2 <= b@.len(),
    ensures
        r == le16(b@[off as int], b@[off + 1]),
{
    (b[off] as u16) + 256 * (b[off + 1] as u16)
}

/// Reads a 32-bit little-endian value at `off`.
pub fn read_u32(b: &[u8], off: usize) -> (r: u32)
    requires
        off + 4 <= b@.len(),
    ensures
        r == le32(b@[off as int], b@[off + 1], b@[off + 2], b@[off + 3]),
{
    (b[off] as u32) + 256 * (b[off + 1] as u32) + 65536 * (b[off + 2] as u32) + 16777216 * (b[off
        + 3] as u32)
}

/// Reads a 64-bit little-endian value at `off`.
pub fn read_u64(b: &[u8], off: usize) -> (r: u64)
    requires
        off + 8 <= b@.len(),
    ensures
        r == le64(b@.subrange(off as int, off + 8)),
{
    let n = b.len();
    assert(off + 8 <= n);
    let lo = read_u32(b, off);
    let hi = read_u32(b, off + 4);
    let ghost s = b@.subrange(off as int, off + 8);
    assert(s[0] == b@[off as int] && s[1] == b@[off + 1] && s[2] == b@[off + 2] && s[3] == b@[off
        + 3] && s[4] == b@[off + 4] && s[5] == b@[off + 5] && s[6] == b@[off + 6] && s[7] == b@[off
        + 7]);
    (lo as u64) + 0x1_0000_0000 * (hi as u64)
}

/// Copies the bytes of `b` from `from` (inclusive) to `to` (exclusive).
pub fn copy_range(b: &[u8], from: usize, to: usize) -> (r: Vec<u8>)
    requires
        from <= to <= b@.len(),
    ensures
        r@ == b@.subrange(from as int, to as int),
{
    let n = b.len();
    assert(to <= n);
    let mut r: Vec<u8> = Vec::new();
    let mut j: usize = from;
    while j < to
        invariant
            from <= j <= to,
            to <= b@.len() <= usize::MAX,
            r@ == b@.subrange(from as int, j as int),
        decreases to - j,
    {
        r.push(b[j]);
        assert(r@ =~= b@.subrange(from as int, j + 1));
        j = j + 1;
    }
    r
}

/// Appends the two little-endian bytes of `x`.
pub fn push_u16(out: &mut Vec<u8>, x: u16)
    ensures
        final(out)@ == old(out)@ + u16_le(x),
{
    out.push((x % 256) as u8);
    out.push((x / 256) as u8);
    assert(out@ =~= old(out)@ + u16_le(x));
}

/// Appends the four little-endian bytes of `x`.
pub fn push_u32(out: &mut Vec<u8>, x: u32)
    ensures
        final(out)@ == old(out)@ + u32_le(x),
{
    out.push((x % 256) as u8);
    out.push(((x / 256) % 256) as u8);
    out.push(((x / 65536) % 256) as u8);
    out.push((x / 16777216) as u8);
    assert(out@ =~= old(out)@ + u32_le(x));
}

} // verus!
