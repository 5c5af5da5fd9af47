//! Numbers as the bits of their binary64 form. The library carries the
//! values of a numeric column this way, and tells from the bits alone
//! which value is not a number and which of two numbers comes first.

use vstd::prelude::*;

verus! {

/// The bits of the value that stands for a missing one: a quiet
/// not-a-number.
pub const NAN_BITS: u64 = 0x7ff8_0000_0000_0000;

/// The bits of one hundred: exponent six, fraction 0.5625.
pub const HUNDRED_BITS: u64 = 0x4059_0000_0000_0000;

/// Whether `bits` are those of a value that is not a number: all exponent
/// bits set, and a fraction that is not zero.
pub open spec fn is_nan_bits(bits: u64) -> bool {
    &&& bits & 0x7ff0_0000_0000_0000 == 0x7ff0_0000_0000_0000
    &&& bits & 0x000f_ffff_ffff_ffff != 0
}

/// The value that stands for a missing one is not a number.
pub proof fn lemma_nan_bits()
    ensures
        is_nan_bits(NAN_BITS),
{
    assert(0x7ff8_0000_0000_0000u64 & 0x7ff0_0000_0000_0000 == 0x7ff0_0000_0000_0000)
        by (bit_vector);
    assert(0x7ff8_0000_0000_0000u64 & 0x000f_ffff_ffff_ffff != 0) by (bit_vector);
}

/// Tests whether `bits` are those of a value that is not a number.
pub fn is_nan(bits: u64) -> (b: bool)
    ensures
        b == is_nan_bits(bits),
{
    bits & 0x7ff0_0000_0000_0000 == 0x7ff0_0000_0000_0000 && bits & 0x000f_ffff_ffff_ffff != 0
}

/// The integer by which a number is ordered: its bits without the sign bit,
/// negated where the sign bit is set. Of two numbers the one with the lesser
/// key is the lesser; both zeros have the key zero, and are equal.
pub open spec fn order_key(bits: u64) -> int {
    if bits & 0x8000_0000_0000_0000 != 0 {
        -((bits & 0x7fff_ffff_ffff_ffff) as int)
    } else {
        (bits & 0x7fff_ffff_ffff_ffff) as int
    }
}

/// The integer by which the number with these bits is ordered.
pub fn order_key_of(bits: u64) -> (key: i64)
    ensures
        key == order_key(bits),
{
    let magnitude = bits & 0x7fff_ffff_ffff_ffff;
    assert(magnitude <= 0x7fff_ffff_ffff_ffff) by (bit_vector)
        requires
            magnitude == bits & 0x7fff_ffff_ffff_ffff,
    ;
    if bits & 0x8000_0000_0000_0000 != 0 {
        -(magnitude as i64)
    } else {
        magnitude as i64
    }
}

/// Whether `bits` are those of a number from zero to one hundred, the range
/// of a percentile.
pub open spec fn is_percentile_bits(bits: u64) -> bool {
    !is_nan_bits(bits) && 0 <= order_key(bits) <= order_key(HUNDRED_BITS)
}

/// Tests whether `bits` are those of a number from zero to one hundred.
pub fn is_percentile(bits: u64) -> (b: bool)
    ensures
        b == is_percentile_bits(bits),
{
    let key = order_key_of(bits);
    let hundred = order_key_of(HUNDRED_BITS);
    !is_nan(bits) && 0 <= key && key <= hundred
}

} // verus!
