//! Little-endian encoding and decoding of the integers that appear in
//! the header and in the tag-length-value fields of the body.

use vstd::prelude::*;

use crate::error::V1KpdbError;

verus! {

/// The value of the two little-endian bytes of `b` starting at `i`.
pub open spec fn le_u16_at(b: Seq<u8>, i: int) -> int {
    b[i] + 0x100 * b[i + 1]
}

/// The value of the four little-endian bytes of `b` starting at `i`.
pub open spec fn le_u32_at(b: Seq<u8>, i: int) -> int {
    b[i] + 0x100 * b[i + 1] + 0x1_0000 * b[i + 2] + 0x100_0000 * b[i + 3]
}

/// The two-byte little-endian encoding of `v`.
pub open spec fn le_u16_bytes(v: u16) -> Seq<u8> {
    seq![(v % 0x100) as u8, (v / 0x100) as u8]
}

/// The four-byte little-endian encoding of `v`.
pub open spec fn le_u32_bytes(v: u32) -> Seq<u8> {
    seq![
        (v % 0x100) as u8,
        ((v / 0x100) % 0x100) as u8,
        ((v / 0x1_0000) % 0x100) as u8,
        ((v / 0x100_0000) % 0x100) as u8,
    ]
}

/// Decoding the encoding of a 16-bit value gives the value back.
pub proof fn lemma_le_u16_round_trip(v: u16)
    ensures
        le_u16_at(le_u16_bytes(v), 0) == v,
{
    assert(v % 0x100 + 0x100 * (v / 0x100) == v) by (bit_vector);
}

/// Decoding the encoding of a 32-bit value gives the value back.
pub proof fn lemma_le_u32_round_trip(v: u32)
    ensures
        le_u32_at(le_u32_bytes(v), 0) == v,
{
    assert(v % 0x100 + 0x100 * ((v / 0x100) % 0x100) + 0x1_0000 * ((v / 0x1_0000) % 0x100)
        + 0x100_0000 * ((v / 0x100_0000) % 0x100) == v) by (bit_vector);
}

/// Reads the first two bytes of `s` as a little-endian 16-bit value.
pub fn slice_to_u16(s: &[u8]) -> (r: Result<u16, V1KpdbError>)
    ensures
        s@.len() >= 2 ==> r == Ok::<u16, V1KpdbError>(le_u16_at(s@, 0) as u16),
        s@.len() < 2 ==> r == Err::<u16, V1KpdbError>(V1KpdbError::ConvertErr),
{
    if s.len() < 2 {
        return Err(V1KpdbError::ConvertErr);
    }
    let v: u16 = s[0] as u16 + 0x100 * s[1] as u16;
    Ok(v)
}

/// Reads the first four bytes of `s` as a little-endian 32-bit value.
pub fn slice_to_u32(s: &[u8]) -> (r: Result<u32, V1KpdbError>)
    ensures
        s@.len() >= 4 ==> r == Ok::<u32, V1KpdbError>(le_u32_at(s@, 0) as u32),
        s@.len() < 4 ==> r == Err::<u32, V1KpdbError>(V1KpdbError::ConvertErr),
{
    if s.len() < 4 {
        return Err(V1KpdbError::ConvertErr);
    }
    let v: u32 = s[0] as u32 + 0x100 * s[1] as u32 + 0x1_0000 * s[2] as u32
        + 0x100_0000 * s[3] as u32;
    Ok(v)
}

/// Appends the two-byte little-endian encoding of `v` to `out`.
pub fn push_u16_le(out: &mut Vec<u8>, v: u16)
    ensures
        final(out)@ == old(out)@ + le_u16_bytes(v),
{
    out.push((v % 0x100) as u8);
    out.push((v / 0x100) as u8);
    assert(out@ =~= old(out)@ + le_u16_bytes(v));
}

/// Appends the four-byte little-endian encoding of `v` to `out`.
pub fn push_u32_le(out: &mut Vec<u8>, v: u32)
    ensures
        final(out)@ == old(out)@ + le_u32_bytes(v),
{
    out.push((v % 0x100) as u8);
    out.push(((v / 0x100) % 0x100) as u8);
    out.push(((v / 0x1_0000) % 0x100) as u8);
    out.push(((v / 0x100_0000) % 0x100) as u8);
    assert(out@ =~= old(out)@ + le_u32_bytes(v));
}

/// Reads the little-endian 16-bit value at `pos`.
pub fn read_u16_at(s: &[u8], pos: usize) -> (r: u16)
    requires
        pos + 2 <= s@.len(),
    ensures
        r == le_u16_at(s@, pos as int),
{
    let v: u16 = s[pos] as u16 + 0x100 * s[pos + 1] as u16;
    v
}

/// Reads the little-endian 32-bit value at `pos`.
pub fn read_u32_at(s: &[u8], pos: usize) -> (r: u32)
    requires
        pos + 4 <= s@.len(),
    ensures
        r == le_u32_at(s@, pos as int),
{
    let v: u32 = s[pos] as u32 + 0x100 * s[pos + 1] as u32 + 0x1_0000 * s[pos + 2] as u32
        + 0x100_0000 * s[pos + 3] as u32;
    v
}

} // verus!
