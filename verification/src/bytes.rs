//! Little-endian integers as sequences of bytes.

use vstd::prelude::*;

verus! {

/// The 16-bit value whose little-endian encoding starts `s`.
pub open spec fn le_u16(s: Seq<u8>) -> u16
    recommends
        s.len() >= 2,
{
    (s[0] as u16) | (s[1] as u16) << 8
}

/// The 32-bit value whose little-endian encoding starts `s`.
pub open spec fn le_u32(s: Seq<u8>) -> u32
    recommends
        s.len() >= 4,
{
    (s[0] as u32) | (s[1] as u32) << 8 | (s[2] as u32) << 16 | (s[3] as u32) << 24
}

/// The 64-bit value whose little-endian encoding starts `s`.
pub open spec fn le_u64(s: Seq<u8>) -> u64
    recommends
        s.len() >= 8,
{
    (s[0] as u64) | (s[1] as u64) << 8 | (s[2] as u64) << 16 | (s[3] as u64) << 24 | (s[4] as u64)
        << 32 | (s[5] as u64) << 40 | (s[6] as u64) << 48 | (s[7] as u64) << 56
}

/// Byte `k` of the little-endian encoding of `v`.
pub open spec fn byte_of(v: u64, k: int) -> u8
    recommends
        0 <= k < 8,
{
    ((v >> ((8 * k) as u64)) & 0xff) as u8
}

/// The eight bytes that encode `v`, least significant first.
pub open spec fn u64_le_bytes(v: u64) -> Seq<u8> {
    Seq::new(8, |k: int| byte_of(v, k))
}

/// Decoding the encoding of a value gives the value back.
pub proof fn lemma_le_u64_of_bytes(v: u64)
    ensures
        le_u64(u64_le_bytes(v)) == v,
        u64_le_bytes(v).len() == 8,
{
    let s = u64_le_bytes(v);
    assert(s[0] == byte_of(v, 0) && s[1] == byte_of(v, 1) && s[2] == byte_of(v, 2) && s[3]
        == byte_of(v, 3) && s[4] == byte_of(v, 4) && s[5] == byte_of(v, 5) && s[6] == byte_of(v, 6)
        && s[7] == byte_of(v, 7));
    assert((((v >> 0u64) & 0xff) as u8 as u64) | (((v >> 8u64) & 0xff) as u8 as u64) << 8 | (((v
        >> 16u64) & 0xff) as u8 as u64) << 16 | (((v >> 24u64) & 0xff) as u8 as u64) << 24 | (((v
        >> 32u64) & 0xff) as u8 as u64) << 32 | (((v >> 40u64) & 0xff) as u8 as u64) << 40 | (((v
        >> 48u64) & 0xff) as u8 as u64) << 48 | (((v >> 56u64) & 0xff) as u8 as u64) << 56 == v)
        by (bit_vector);
}

/// Sequences that agree in their first eight bytes decode to the same value:
/// decoding reads nothing beyond them.
pub proof fn lemma_le_u64_depends_on_prefix(s: Seq<u8>, t: Seq<u8>)
    requires
        s.len() >= 8,
        t.len() >= 8,
        forall|k: int| 0 <= k < 8 ==> s[k] == t[k],
    ensures
        le_u64(s) == le_u64(t),
{
}

/// Reads a little-endian `u16` at offset `off` of `data`.
pub fn read_u16_le(data: &[u8], off: usize) -> (r: u16)
    requires
        off + 2 <= data@.len(),
    ensures
        r == le_u16(data@.subrange(off as int, off + 2)),
{
    (data[off] as u16) | (data[off + 1] as u16) << 8
}

/// Reads a little-endian `u32` at offset `off` of `data`.
pub fn read_u32_le(data: &[u8], off: usize) -> (r: u32)
    requires
        off + 4 <= data@.len(),
    ensures
        r == le_u32(data@.subrange(off as int, off + 4)),
{
    (data[off] as u32) | (data[off + 1] as u32) << 8 | (data[off + 2] as u32) << 16 | (data[off
        + 3] as u32) << 24
}

/// Reads a little-endian `u64` at offset `off` of `data`.
pub fn read_u64_le(data: &[u8], off: usize) -> (r: u64)
    requires
        off + 8 <= data@.len(),
    ensures
        r == le_u64(data@.subrange(off as int, off + 8)),
{
    (data[off] as u64) | (data[off + 1] as u64) << 8 | (data[off + 2] as u64) << 16 | (data[off
        + 3] as u64) << 24 | (data[off + 4] as u64) << 32 | (data[off + 5] as u64) << 40 | (
    data[off + 6] as u64) << 48 | (data[off + 7] as u64) << 56
}

} // verus!
