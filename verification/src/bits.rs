//! Facts about shifts, masks and truncation that the register encodings
//! rely on.
use vstd::prelude::*;

verus! {

/// Bytes and fields of a 64-bit value.
pub proof fn lemma_u64_fields(x: u64)
    by (bit_vector)
    ensures
        x as u8 == x % 256,
        (x >> 8u64) as u8 == (x / 256) % 256,
        (x >> 16u64) as u8 == (x / 65536) % 256,
        (x >> 24u64) as u8 == (x / 0x100_0000) % 256,
        (x >> 32u64) as u8 == (x / 0x1_0000_0000) % 256,
        (x >> 40u64) as u8 == (x / 0x100_0000_0000) % 256,
        x >> 32u64 == x / 0x1_0000_0000,
        (x >> 39u64) & 0x1FFu64 == (x / 0x80_0000_0000) % 512,
{
}

/// Bytes and fields of a 32-bit value.
pub proof fn lemma_u32_fields(x: u32)
    by (bit_vector)
    ensures
        x >> 4u32 == x / 16,
        x & 0xFFu32 < 256,
        x & 0xFFFFu32 < 65536,
        (x >> 8u32) as u8 == (x >> 8u32) & 0xFFu32,
{
}

/// The low bits of a machine word.
pub proof fn lemma_usize_low_bits(x: usize)
    by (bit_vector)
    ensures
        x & 7usize == x % 8,
        x & 4095usize == x % 4096,
{
}

} // verus!
