//! Bit-field access on register values, through the `bit_field` crate.
use bit_field::BitField;
use vstd::prelude::*;

verus! {

/// The mask of the `len` lowest bits of a 32-bit word (`len <= 32`).
pub open spec fn mask32(len: u32) -> u32 {
    if len >= 32 {
        0xffff_ffffu32
    } else {
        !(0xffff_ffffu32 << len)
    }
}

/// Bits `start .. end` of `x`, shifted down to bit 0.
pub open spec fn bits32(x: u32, start: u32, end: u32) -> u32 {
    (x >> start) & mask32((end - start) as u32)
}

/// `x` with bits `start .. end` replaced by `value`.
pub open spec fn with_bits32(x: u32, start: u32, end: u32, value: u32) -> u32 {
    (x & !(mask32((end - start) as u32) << start)) | (value << start)
}

/// Reads bits `start .. end` of `x` with `BitField::get_bits` on `u32`.
///
/// The contract claims what `bit_field` computes: the bits of the
/// range shifted down to bit 0; the crate panics on a range that is empty
/// of width or outside the word, which `requires` leaves out.
#[verifier::external_body]
pub(crate) fn get_bits32(x: u32, start: usize, end: usize) -> (r: u32)
    requires
        start < end <= 32,
    ensures
        r == bits32(x, start as u32, end as u32),
{
    x.get_bits(start..end)
}

/// Writes `value` into bits `start .. end` of `x` with `BitField::set_bits`
/// on `u32`.
///
/// The contract claims what `bit_field` computes: the bits of the
/// range are replaced by `value` and every other bit is kept. The crate
/// panics where `value` does not fit into the range, which `requires`
/// leaves out.
#[verifier::external_body]
pub(crate) fn set_bits32(x: &mut u32, start: usize, end: usize, value: u32)
    requires
        start < end <= 32,
        value & mask32((end - start) as u32) == value,
    ensures
        *final(x) == with_bits32(*old(x), start as u32, end as u32, value),
{
    x.set_bits(start..end, value);
}

/// Reads bit `bit` of `x` with `BitField::get_bit` on `u8`.
///
/// The contract claims what `bit_field` computes: whether that bit is
/// set; the crate panics on a bit index of 8 or more, which `requires`
/// leaves out.
#[verifier::external_body]
pub(crate) fn get_bit8(x: u8, bit: usize) -> (r: bool)
    requires
        bit < 8,
    ensures
        r == (x & (1u8 << bit as u8) != 0),
{
    x.get_bit(bit)
}

} // verus!
