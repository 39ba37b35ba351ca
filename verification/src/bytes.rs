//! Readers for the raw multi-byte fields of the stream, built on the
//! outside crates that do the actual bit and byte shuffling.

use vstd::prelude::*;
use crate::model::ctrl_bit;

verus! {

/// Relies on bit_vec::BitVec::from_bytes: the eight bits of the byte
/// appear in order from the most significant to the least significant.
#[verifier::external_body]
pub(crate) fn control_bits(b: u8) -> (r: Vec<bool>)
    ensures
        r@.len() == 8,
        forall|i: int| 0 <= i < 8 ==> r@[i] == ctrl_bit(b, i),
{
    bit_vec::BitVec::from_bytes(&[b]).iter().collect()
}

/// Relies on byteorder::BigEndian::read_u16: an unsigned 16-bit
/// big-endian integer assembled from two bytes.
#[verifier::external_body]
pub(crate) fn read_u16_be(hi: u8, lo: u8) -> (r: u16)
    ensures
        r == (hi as int) * 0x100 + (lo as int),
{
    <byteorder::BigEndian as byteorder::ByteOrder>::read_u16(&[hi, lo])
}

/// Relies on byteorder::LittleEndian::read_u24: an unsigned 24-bit
/// little-endian integer assembled from three bytes.
#[verifier::external_body]
pub(crate) fn read_u24_le(b0: u8, b1: u8, b2: u8) -> (r: u32)
    ensures
        r == (b0 as int) + (b1 as int) * 0x100 + (b2 as int) * 0x10000,
{
    <byteorder::LittleEndian as byteorder::ByteOrder>::read_u24(&[b0, b1, b2])
}

} // verus!
