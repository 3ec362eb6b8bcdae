//! Little- and big-endian integer fields inside byte buffers.

use vstd::prelude::*;

verus! {

/// The 16-bit value stored little-endian as `b0, b1`.
pub open spec fn u16_le_spec(b0: u8, b1: u8) -> u16 {
    (b0 as u16) | ((b1 as u16) << 8u16)
}

/// The 16-bit value stored big-endian as `b0, b1`.
pub open spec fn u16_be_spec(b0: u8, b1: u8) -> u16 {
    u16_le_spec(b1, b0)
}

/// The 32-bit value stored little-endian as `b0, b1, b2, b3`.
pub open spec fn u32_le_spec(b0: u8, b1: u8, b2: u8, b3: u8) -> u32 {
    (b0 as u32) | ((b1 as u32) << 8u32) | ((b2 as u32) << 16u32) | ((b3 as u32) << 24u32)
}

/// The 32-bit value stored big-endian as `b0, b1, b2, b3`.
pub open spec fn u32_be_spec(b0: u8, b1: u8, b2: u8, b3: u8) -> u32 {
    u32_le_spec(b3, b2, b1, b0)
}

/// The 32-bit little-endian value starting at `off` in `s`.
pub open spec fn u32_le_at_spec(s: Seq<u8>, off: int) -> u32 {
    u32_le_spec(s[off], s[off + 1], s[off + 2], s[off + 3])
}

/// The 16-bit little-endian value starting at `off` in `s`.
pub open spec fn u16_le_at_spec(s: Seq<u8>, off: int) -> u16 {
    u16_le_spec(s[off], s[off + 1])
}

/// The 64-bit value stored little-endian starting at `off` in `s`.
pub open spec fn u64_le_at_spec(s: Seq<u8>, off: int) -> u64 {
    (s[off] as u64) | ((s[off + 1] as u64) << 8u64) | ((s[off + 2] as u64) << 16u64)
        | ((s[off + 3] as u64) << 24u64) | ((s[off + 4] as u64) << 32u64)
        | ((s[off + 5] as u64) << 40u64) | ((s[off + 6] as u64) << 48u64)
        | ((s[off + 7] as u64) << 56u64)
}

/// Byte `k` (counting from the least significant) of a 16-bit value.
pub open spec fn u16_byte(x: u16, k: int) -> u8 {
    ((x >> ((8 * k) as u16)) & 0xFF) as u8
}

/// Byte `k` (counting from the least significant) of a 32-bit value.
pub open spec fn u32_byte(x: u32, k: int) -> u8 {
    ((x >> ((8 * k) as u32)) & 0xFF) as u8
}

/// Byte `k` (counting from the least significant) of a 64-bit value.
pub open spec fn u64_byte(x: u64, k: int) -> u8 {
    ((x >> ((8 * k) as u64)) & 0xFF) as u8
}

/// Storing a 16-bit value and reading it back is the identity, and reading
/// two bytes and storing the value back restores the same bytes.
pub proof fn lemma_u16_le_roundtrip(x: u16, b0: u8, b1: u8)
    ensures
        u16_le_spec(u16_byte(x, 0), u16_byte(x, 1)) == x,
        u16_byte(u16_le_spec(b0, b1), 0) == b0,
        u16_byte(u16_le_spec(b0, b1), 1) == b1,
{
    assert((((x >> 0u16) & 0xFF) as u8 as u16) | (((((x >> 8u16) & 0xFF) as u8) as u16) << 8u16)
        == x) by (bit_vector);
    let y = (b0 as u16) | ((b1 as u16) << 8u16);
    assert(((y >> 0u16) & 0xFF) as u8 == b0 && ((y >> 8u16) & 0xFF) as u8 == b1) by (bit_vector)
        requires y == (b0 as u16) | ((b1 as u16) << 8u16);
}

/// As [`lemma_u16_le_roundtrip`], for 32-bit values.
pub proof fn lemma_u32_le_roundtrip(x: u32, b0: u8, b1: u8, b2: u8, b3: u8)
    ensures
        u32_le_spec(u32_byte(x, 0), u32_byte(x, 1), u32_byte(x, 2), u32_byte(x, 3)) == x,
        u32_byte(u32_le_spec(b0, b1, b2, b3), 0) == b0,
        u32_byte(u32_le_spec(b0, b1, b2, b3), 1) == b1,
        u32_byte(u32_le_spec(b0, b1, b2, b3), 2) == b2,
        u32_byte(u32_le_spec(b0, b1, b2, b3), 3) == b3,
{
    assert((((x >> 0u32) & 0xFF) as u8 as u32) | ((((x >> 8u32) & 0xFF) as u8 as u32) << 8u32)
        | ((((x >> 16u32) & 0xFF) as u8 as u32) << 16u32)
        | ((((x >> 24u32) & 0xFF) as u8 as u32) << 24u32) == x) by (bit_vector);
    let y = (b0 as u32) | ((b1 as u32) << 8u32) | ((b2 as u32) << 16u32) | ((b3 as u32) << 24u32);
    assert(((y >> 0u32) & 0xFF) as u8 == b0 && ((y >> 8u32) & 0xFF) as u8 == b1
        && ((y >> 16u32) & 0xFF) as u8 == b2 && ((y >> 24u32) & 0xFF) as u8 == b3) by (bit_vector)
        requires y == (b0 as u32) | ((b1 as u32) << 8u32) | ((b2 as u32) << 16u32) | (
        (b3 as u32) << 24u32);
}

/// As [`lemma_u16_le_roundtrip`], for 64-bit values read out of a buffer.
pub proof fn lemma_u64_le_roundtrip(x: u64, s: Seq<u8>, off: int)
    requires
        0 <= off,
        off + 8 <= s.len(),
        forall|k: int| 0 <= k < 8 ==> s[off + k] == u64_byte(x, k),
    ensures
        u64_le_at_spec(s, off) == x,
{
    assert((((x >> 0u64) & 0xFF) as u8 as u64) | ((((x >> 8u64) & 0xFF) as u8 as u64) << 8u64)
        | ((((x >> 16u64) & 0xFF) as u8 as u64) << 16u64)
        | ((((x >> 24u64) & 0xFF) as u8 as u64) << 24u64)
        | ((((x >> 32u64) & 0xFF) as u8 as u64) << 32u64)
        | ((((x >> 40u64) & 0xFF) as u8 as u64) << 40u64)
        | ((((x >> 48u64) & 0xFF) as u8 as u64) << 48u64)
        | ((((x >> 56u64) & 0xFF) as u8 as u64) << 56u64) == x) by (bit_vector);
    assert(s[off] == u64_byte(x, 0));
    assert(s[off + 1] == u64_byte(x, 1));
    assert(s[off + 2] == u64_byte(x, 2));
    assert(s[off + 3] == u64_byte(x, 3));
    assert(s[off + 4] == u64_byte(x, 4));
    assert(s[off + 5] == u64_byte(x, 5));
    assert(s[off + 6] == u64_byte(x, 6));
    assert(s[off + 7] == u64_byte(x, 7));
}

/// Reads the 16-bit little-endian value at `off`.
pub fn read_u16_le(s: &[u8], off: usize) -> (r: u16)
    requires
        off + 2 <= s@.len(),
    ensures
        r == u16_le_at_spec(s@, off as int),
{
    (s[off] as u16) | ((s[off + 1] as u16) << 8u16)
}

/// Reads the 32-bit little-endian value at `off`.
pub fn read_u32_le(s: &[u8], off: usize) -> (r: u32)
    requires
        off + 4 <= s@.len(),
    ensures
        r == u32_le_at_spec(s@, off as int),
{
    (s[off] as u32) | ((s[off + 1] as u32) << 8u32) | ((s[off + 2] as u32) << 16u32)
        | ((s[off + 3] as u32) << 24u32)
}

/// Reads the 64-bit little-endian value at `off`.
pub fn read_u64_le(s: &[u8], off: usize) -> (r: u64)
    requires
        off + 8 <= s@.len(),
    ensures
        r == u64_le_at_spec(s@, off as int),
{
    (s[off] as u64) | ((s[off + 1] as u64) << 8u64) | ((s[off + 2] as u64) << 16u64)
        | ((s[off + 3] as u64) << 24u64) | ((s[off + 4] as u64) << 32u64)
        | ((s[off + 5] as u64) << 40u64) | ((s[off + 6] as u64) << 48u64)
        | ((s[off + 7] as u64) << 56u64)
}

/// Writes the 16-bit value `x` little-endian at `off`, leaving every
/// other byte unchanged.
pub fn write_u16_le(s: &mut Vec<u8>, off: usize, x: u16)
    requires
        off + 2 <= old(s)@.len(),
    ensures
        final(s)@.len() == old(s)@.len(),
        u16_le_at_spec(final(s)@, off as int) == x,
        final(s)@[off as int] == u16_byte(x, 0),
        final(s)@[off + 1] == u16_byte(x, 1),
        forall|i: int| 0 <= i < old(s)@.len() && !(off <= i < off + 2) ==> final(s)@[i] == old(
            s,
        )@[i],
{
    let n = s.len();
    let b0 = u16_byte_of(x, 0);
    let b1 = u16_byte_of(x, 1);
    s[off] = b0;
    s[off + 1] = b1;
    proof {
        lemma_u16_le_roundtrip(x, b0, b1);
    }
}

/// Writes the 32-bit value `x` little-endian at `off`, leaving every
/// other byte unchanged.
pub fn write_u32_le(s: &mut Vec<u8>, off: usize, x: u32)
    requires
        off + 4 <= old(s)@.len(),
    ensures
        final(s)@.len() == old(s)@.len(),
        u32_le_at_spec(final(s)@, off as int) == x,
        final(s)@[off as int] == u32_byte(x, 0),
        final(s)@[off + 1] == u32_byte(x, 1),
        final(s)@[off + 2] == u32_byte(x, 2),
        final(s)@[off + 3] == u32_byte(x, 3),
        forall|i: int| 0 <= i < old(s)@.len() && !(off <= i < off + 4) ==> final(s)@[i] == old(
            s,
        )@[i],
{
    let n = s.len();
    let b0 = u32_byte_of(x, 0);
    let b1 = u32_byte_of(x, 1);
    let b2 = u32_byte_of(x, 2);
    let b3 = u32_byte_of(x, 3);
    s[off] = b0;
    s[off + 1] = b1;
    s[off + 2] = b2;
    s[off + 3] = b3;
    proof {
        lemma_u32_le_roundtrip(x, b0, b1, b2, b3);
    }
}

/// The byte `k` of a 16-bit value.
pub fn u16_byte_of(x: u16, k: u32) -> (r: u8)
    requires
        k < 2,
    ensures
        r == u16_byte(x, k as int),
{
    ((x >> ((8 * k) as u16)) & 0xFF) as u8
}

/// The byte `k` of a 32-bit value.
pub fn u32_byte_of(x: u32, k: u32) -> (r: u8)
    requires
        k < 4,
    ensures
        r == u32_byte(x, k as int),
{
    ((x >> ((8 * k) as u32)) & 0xFF) as u8
}

/// The byte `k` of a 64-bit value.
pub fn u64_byte_of(x: u64, k: u32) -> (r: u8)
    requires
        k < 8,
    ensures
        r == u64_byte(x, k as int),
{
    ((x >> ((8 * k) as u64)) & 0xFF) as u8
}

} // verus!
