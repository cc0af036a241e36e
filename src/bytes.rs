use byteorder::{BigEndian, ByteOrder, LittleEndian};
use vstd::prelude::*;

verus! {

/// The 16-bit little-endian integer held at `p` in `s`.
pub open spec fn le16(s: Seq<u8>, p: int) -> int {
    s[p] as int + 256 * s[p + 1] as int
}

/// The 32-bit little-endian integer held at `p` in `s`.
pub open spec fn le32(s: Seq<u8>, p: int) -> int {
    s[p] as int + 256 * s[p + 1] as int + 65536 * s[p + 2] as int + 16777216 * s[p + 3] as int
}

/// The 32-bit big-endian integer held at `p` in `s`.
pub open spec fn be32(s: Seq<u8>, p: int) -> int {
    16777216 * s[p] as int + 65536 * s[p + 1] as int + 256 * s[p + 2] as int + s[p + 3] as int
}

/// Relies on byteorder's `LittleEndian::read_u16`: the first two bytes,
/// least significant first.
#[verifier::external_body]
fn le_u16_of(b: [u8; 2]) -> (r: u16)
    ensures
        r as int == le16(b@, 0),
{
    LittleEndian::read_u16(&b)
}

/// Relies on byteorder's `LittleEndian::read_u32`: the first four bytes,
/// least significant first.
#[verifier::external_body]
fn le_u32_of(b: [u8; 4]) -> (r: u32)
    ensures
        r as int == le32(b@, 0),
{
    LittleEndian::read_u32(&b)
}

/// Relies on byteorder's `BigEndian::read_u32`: the first four bytes, most
/// significant first.
#[verifier::external_body]
fn be_u32_of(b: [u8; 4]) -> (r: u32)
    ensures
        r as int == be32(b@, 0),
{
    BigEndian::read_u32(&b)
}

/// Reads the little-endian `u16` at `pos`.
pub(crate) fn le_u16_at(data: &[u8], pos: usize) -> (r: u16)
    requires
        pos + 2 <= data@.len(),
    ensures
        r as int == le16(data@, pos as int),
{
    le_u16_of([data[pos], data[pos + 1]])
}

/// Reads the little-endian `u32` at `pos`.
pub(crate) fn le_u32_at(data: &[u8], pos: usize) -> (r: u32)
    requires
        pos + 4 <= data@.len(),
    ensures
        r as int == le32(data@, pos as int),
{
    le_u32_of([data[pos], data[pos + 1], data[pos + 2], data[pos + 3]])
}

/// Reads the big-endian `u32` at `pos`.
pub(crate) fn be_u32_at(data: &[u8], pos: usize) -> (r: u32)
    requires
        pos + 4 <= data@.len(),
    ensures
        r as int == be32(data@, pos as int),
{
    be_u32_of([data[pos], data[pos + 1], data[pos + 2], data[pos + 3]])
}

/// A copy of the bytes of `data` from `start` up to `end`.
pub(crate) fn copy_range(data: &[u8], start: usize, end: usize) -> (r: Vec<u8>)
    requires
        start <= end <= data@.len(),
    ensures
        r@ == data@.subrange(start as int, end as int),
{
    let mut r: Vec<u8> = Vec::with_capacity(end - start);
    let mut i: usize = start;
    while i < end
        invariant
            start <= i <= end <= data@.len(),
            r@ == data@.subrange(start as int, i as int),
        decreases end - i,
    {
        r.push(data[i]);
        i = i + 1;
        assert(r@ =~= data@.subrange(start as int, i as int));
    }
    r
}

} // verus!
