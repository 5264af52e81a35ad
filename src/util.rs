use vstd::prelude::*;

verus! {

/// The little-endian `u32` in the four bytes of `s` from `i`.
pub open spec fn le_u32(s: Seq<u8>, i: int) -> int {
    s[i] + 256 * s[i + 1] + 65536 * s[i + 2] + 16777216 * s[i + 3]
}

/// The little-endian `u16` in the two bytes of `s` from `i`.
pub open spec fn le_u16(s: Seq<u8>, i: int) -> int {
    s[i] + 256 * s[i + 1]
}

/// The four little-endian bytes of `x`.
pub open spec fn u32_bytes(x: u32) -> Seq<u8> {
    seq![(x % 256) as u8, (x / 256 % 256) as u8, (x / 65536 % 256) as u8, (x / 16777216) as u8]
}

/// The two little-endian bytes of `x`.
pub open spec fn u16_bytes(x: u16) -> Seq<u8> {
    seq![(x % 256) as u8, (x / 256) as u8]
}

/// Reading back the bytes of a `u32` gives the same value.
pub proof fn lemma_u32_round_trip(x: u32)
    ensures
        le_u32(u32_bytes(x), 0) == x,
{
    let b = u32_bytes(x);
    assert(x == (x % 256) + 256 * (x / 256 % 256) + 65536 * (x / 65536 % 256) + 16777216 * (x
        / 16777216)) by (bit_vector);
}

/// Reading back the bytes of a `u16` gives the same value.
pub proof fn lemma_u16_round_trip(x: u16)
    ensures
        le_u16(u16_bytes(x), 0) == x,
{
    assert(x == (x % 256) + 256 * (x / 256)) by (bit_vector);
}

/// Read a little-endian `u32` at `*index` and move the index past it
pub fn byte_slice_to_u32(array: &[u8], index: &mut usize) -> (r: u32)
    requires
        *old(index) + 4 <= array@.len(),
    ensures
        r == le_u32(array@, *old(index) as int),
        *final(index) == *old(index) + 4,
{
    let i: usize = *index;
    let r = array[i] as u32 + 256 * (array[i + 1] as u32) + 65536 * (array[i + 2] as u32)
        + 16777216 * (array[i + 3] as u32);
    *index = i + 4;
    r
}

/// Read a little-endian `u16` at `*index` and move the index past it
pub fn byte_slice_to_u16(array: &[u8], index: &mut usize) -> (r: u16)
    requires
        *old(index) + 2 <= array@.len(),
    ensures
        r == le_u16(array@, *old(index) as int),
        *final(index) == *old(index) + 2,
{
    let i: usize = *index;
    let r = array[i] as u16 + 256 * (array[i + 1] as u16);
    *index = i + 2;
    r
}

/// Append the little-endian bytes of `x`.
pub fn push_u32(bytes: &mut Vec<u8>, x: u32)
    ensures
        final(bytes)@ == old(bytes)@ + u32_bytes(x),
{
    bytes.push((x % 256) as u8);
    bytes.push((x / 256 % 256) as u8);
    bytes.push((x / 65536 % 256) as u8);
    bytes.push((x / 16777216) as u8);
    proof {
        assert(bytes@ =~= old(bytes)@ + u32_bytes(x));
    }
}

/// Append the little-endian bytes of `x`.
pub fn push_u16(bytes: &mut Vec<u8>, x: u16)
    ensures
        final(bytes)@ == old(bytes)@ + u16_bytes(x),
{
    bytes.push((x % 256) as u8);
    bytes.push((x / 256) as u8);
    proof {
        assert(bytes@ =~= old(bytes)@ + u16_bytes(x));
    }
}

} // verus!
