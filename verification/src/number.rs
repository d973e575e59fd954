//! Numbers of the language are IEEE-754 binary64 values. The library carries
//! each number as its 64-bit pattern and decides on the pattern everything
//! that needs no rounding: sign, zero, NaN, equality and order.
use vstd::prelude::*;

verus! {

/// The sign bit of a binary64 pattern.
pub const SIGN_BIT: u64 = 0x8000_0000_0000_0000;

/// Everything but the sign bit of a binary64 pattern.
pub const MAGNITUDE_MASK: u64 = 0x7fff_ffff_ffff_ffff;

/// The magnitude of an infinity; larger magnitudes are NaNs.
pub const INFINITY_BITS: u64 = 0x7ff0_0000_0000_0000;

/// The pattern without its sign bit.
pub open spec fn magnitude(bits: u64) -> u64 {
    bits & MAGNITUDE_MASK
}

/// Whether the pattern is a NaN.
pub open spec fn is_nan(bits: u64) -> bool {
    magnitude(bits) > INFINITY_BITS
}

/// Whether the pattern is positive or negative zero.
pub open spec fn is_zero(bits: u64) -> bool {
    magnitude(bits) == 0
}

/// Whether the sign bit is set.
pub open spec fn is_negative(bits: u64) -> bool {
    bits & SIGN_BIT != 0
}

/// The pattern of the negated number: the sign bit flipped.
pub open spec fn negated(bits: u64) -> u64 {
    bits ^ SIGN_BIT
}

/// IEEE equality: a NaN equals nothing, the two zeros equal each other, and
/// every other number equals only itself.
pub open spec fn number_equal(a: u64, b: u64) -> bool {
    &&& !is_nan(a)
    &&& !is_nan(b)
    &&& (a == b || (is_zero(a) && is_zero(b)))
}

/// IEEE `<`: false if either side is a NaN or both are zeros; otherwise the
/// order of sign and magnitude.
pub open spec fn number_less(a: u64, b: u64) -> bool {
    &&& !is_nan(a)
    &&& !is_nan(b)
    &&& !(is_zero(a) && is_zero(b))
    &&& if is_negative(a) {
        !is_negative(b) || magnitude(a) > magnitude(b)
    } else {
        !is_negative(b) && magnitude(a) < magnitude(b)
    }
}

/// IEEE `<=`.
pub open spec fn number_less_equal(a: u64, b: u64) -> bool {
    number_less(a, b) || number_equal(a, b)
}

/// Decides whether a pattern is a NaN.
pub fn nan(bits: u64) -> (r: bool)
    ensures
        r == is_nan(bits),
{
    (bits & MAGNITUDE_MASK) > INFINITY_BITS
}

/// Decides whether a pattern is one of the two zeros.
pub fn zero(bits: u64) -> (r: bool)
    ensures
        r == is_zero(bits),
{
    (bits & MAGNITUDE_MASK) == 0
}

/// Negates a number.
pub fn negate(bits: u64) -> (r: u64)
    ensures
        r == negated(bits),
{
    bits ^ SIGN_BIT
}

/// Decides IEEE equality of two numbers.
pub fn equal(a: u64, b: u64) -> (r: bool)
    ensures
        r == number_equal(a, b),
{
    !nan(a) && !nan(b) && (a == b || (zero(a) && zero(b)))
}

/// Decides IEEE `<` of two numbers.
pub fn less(a: u64, b: u64) -> (r: bool)
    ensures
        r == number_less(a, b),
{
    if nan(a) || nan(b) || (zero(a) && zero(b)) {
        return false;
    }
    let a_negative = (a & SIGN_BIT) != 0;
    let b_negative = (b & SIGN_BIT) != 0;
    if a_negative {
        !b_negative || (a & MAGNITUDE_MASK) > (b & MAGNITUDE_MASK)
    } else {
        !b_negative && (a & MAGNITUDE_MASK) < (b & MAGNITUDE_MASK)
    }
}

/// Decides IEEE `<=` of two numbers.
pub fn less_equal(a: u64, b: u64) -> (r: bool)
    ensures
        r == number_less_equal(a, b),
{
    less(a, b) || equal(a, b)
}

/// Negating twice gives the number back.
pub proof fn law_negate_involutive(bits: u64)
    ensures
        negated(negated(bits)) == bits,
{
    assert((bits ^ 0x8000_0000_0000_0000u64) ^ 0x8000_0000_0000_0000u64 == bits) by (bit_vector);
}

/// No number is less than itself, and `<` never holds both ways.
pub proof fn law_less_asymmetric(a: u64, b: u64)
    ensures
        !number_less(a, a),
        number_less(a, b) ==> !number_less(b, a),
{
}

} // verus!
