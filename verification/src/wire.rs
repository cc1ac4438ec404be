//! Little-endian wire encodings, as mathematical sequences of bytes.
//!
//! Every HCI field is little-endian. These spec functions give the byte
//! sequence of each fixed-width unsigned value; the executable reader and
//! writer are proved against them.

use vstd::prelude::*;

verus! {

/// The two little-endian bytes of a 16-bit value.
pub open spec fn le16(v: u16) -> Seq<u8> {
    seq![(v % 0x100) as u8, (v / 0x100) as u8]
}

/// The three little-endian bytes of a 24-bit value carried in a `u32`.
/// Meaningful when `v < 0x100_0000`.
pub open spec fn le24(v: u32) -> Seq<u8> {
    seq![(v % 0x100) as u8, ((v / 0x100) % 0x100) as u8, ((v / 0x1_0000) % 0x100) as u8]
}

/// The four little-endian bytes of a 32-bit value.
pub open spec fn le32(v: u32) -> Seq<u8> {
    seq![
        (v % 0x100) as u8,
        ((v / 0x100) % 0x100) as u8,
        ((v / 0x1_0000) % 0x100) as u8,
        (v / 0x100_0000) as u8,
    ]
}

/// The 16-bit value read back from two little-endian bytes.
pub open spec fn val16(b0: u8, b1: u8) -> u16 {
    (b0 + b1 * 0x100) as u16
}

/// The value read back from three little-endian bytes, zero-extended to 32 bits.
pub open spec fn val24(b0: u8, b1: u8, b2: u8) -> u32 {
    (b0 + b1 * 0x100 + b2 * 0x1_0000) as u32
}

/// The 32-bit value read back from four little-endian bytes.
pub open spec fn val32(b0: u8, b1: u8, b2: u8, b3: u8) -> u32 {
    (b0 + b1 * 0x100 + b2 * 0x1_0000 + b3 * 0x100_0000) as u32
}

/// Decoding inverts encoding for 16-bit values.
pub proof fn lemma_val16_le16(v: u16)
    ensures
        val16(le16(v)[0], le16(v)[1]) == v,
{
}

/// Encoding inverts decoding for 16-bit values.
pub proof fn lemma_le16_val16(b0: u8, b1: u8)
    ensures
        le16(val16(b0, b1)) =~= seq![b0, b1],
{
}

/// Decoding inverts encoding for 24-bit values.
pub proof fn lemma_val24_le24(v: u32)
    requires
        v < 0x100_0000,
    ensures
        val24(le24(v)[0], le24(v)[1], le24(v)[2]) == v,
{
}

/// Encoding inverts decoding for 24-bit values.
pub proof fn lemma_le24_val24(b0: u8, b1: u8, b2: u8)
    ensures
        val24(b0, b1, b2) < 0x100_0000,
        le24(val24(b0, b1, b2)) =~= seq![b0, b1, b2],
{
}

/// Decoding inverts encoding for 32-bit values.
pub proof fn lemma_val32_le32(v: u32)
    ensures
        val32(le32(v)[0], le32(v)[1], le32(v)[2], le32(v)[3]) == v,
{
}

/// Encoding inverts decoding for 32-bit values.
pub proof fn lemma_le32_val32(b0: u8, b1: u8, b2: u8, b3: u8)
    ensures
        le32(val32(b0, b1, b2, b3)) =~= seq![b0, b1, b2, b3],
{
    let v = val32(b0, b1, b2, b3);
    assert(v % 0x100 == b0 && (v / 0x100) % 0x100 == b1 && (v / 0x1_0000) % 0x100 == b2 && v
        / 0x100_0000 == b3) by (bit_vector)
        requires
            v == b0 + b1 * 0x100 + b2 * 0x1_0000 + b3 * 0x100_0000,
    ;
}

} // verus!
