//! Single-precision values as bit patterns.
//!
//! Every weight and every similarity in this crate is carried as the 32-bit
//! pattern of an IEEE 754 binary32 value: one sign bit, eight exponent bits,
//! twenty-three fraction bits. Arithmetic on such values is left to the
//! kernels that callers pass in; what is decided here, on the pattern alone,
//! is how two values compare and whether a value is greater than zero.
use vstd::prelude::*;

verus! {

/// The pattern of positive infinity: all exponent bits set, fraction zero.
pub const INFINITY: u32 = 0x7f80_0000;

/// The pattern of negative infinity.
pub const NEG_INFINITY: u32 = 0xff80_0000;

/// The lowest pattern whose sign bit is set (negative zero).
pub const SIGN: u32 = 0x8000_0000;

/// Whether the sign bit of the pattern is set.
pub open spec fn sign_set(bits: u32) -> bool {
    bits >= SIGN
}

/// The pattern without its sign bit, read as an integer.
pub open spec fn magnitude(bits: u32) -> int {
    if sign_set(bits) {
        bits - SIGN
    } else {
        bits as int
    }
}

/// Whether the pattern is a NaN: exponent all ones and a nonzero fraction.
pub open spec fn is_nan(bits: u32) -> bool {
    magnitude(bits) > INFINITY
}

/// Where the value stands on the number line. Binary32 is a sign-magnitude
/// format, so among patterns that are no NaN one value is smaller than another
/// exactly when its position is smaller; both zeros stand at 0.
pub open spec fn position(bits: u32) -> int {
    if sign_set(bits) {
        -magnitude(bits)
    } else {
        magnitude(bits)
    }
}

/// The comparison `a >= b` of the two values. It is false as soon as one of
/// them is a NaN.
pub open spec fn at_least(a: u32, b: u32) -> bool {
    !is_nan(a) && !is_nan(b) && position(a) >= position(b)
}

/// The comparison `bits > 0.0`.
pub open spec fn is_positive(bits: u32) -> bool {
    !is_nan(bits) && position(bits) > 0
}

/// The key by which similarities are ranked. It gives every pattern a place
/// of its own: negative NaNs lowest, then negative infinity, the negative
/// numbers, negative zero, positive zero, the positive numbers, positive
/// infinity, and positive NaNs highest. Where neither value is a NaN and the
/// two are not the two zeros, the keys compare as the values do.
pub open spec fn order_key(bits: u32) -> int {
    if sign_set(bits) {
        -magnitude(bits) - 1
    } else {
        magnitude(bits)
    }
}

/// The ranking key of a pattern.
pub fn key_of(bits: u32) -> (key: i64)
    ensures
        key == order_key(bits),
{
    if bits >= SIGN {
        -((bits - SIGN) as i64) - 1
    } else {
        bits as i64
    }
}

/// Whether `a` ranks at least as high as `b`.
pub fn ranks_at_least(a: u32, b: u32) -> (r: bool)
    ensures
        r == (order_key(a) >= order_key(b)),
{
    key_of(a) >= key_of(b)
}

/// Whether the value is greater than zero.
pub fn exceeds_zero(bits: u32) -> (r: bool)
    ensures
        r == is_positive(bits),
{
    0 < bits && bits <= INFINITY
}

/// Two patterns with the same ranking key are the same pattern.
pub proof fn order_key_is_injective(a: u32, b: u32)
    requires
        order_key(a) == order_key(b),
    ensures
        a == b,
{
}

/// Ranking agrees with the comparison of values: of two patterns that are no
/// NaN, the one that ranks at least as high is at least as large.
pub proof fn ranking_respects_values(a: u32, b: u32)
    requires
        !is_nan(a),
        !is_nan(b),
        order_key(a) >= order_key(b),
    ensures
        at_least(a, b),
{
}

/// Ranking never reverses a strict comparison: a value that is strictly
/// larger than another has the strictly higher key.
pub proof fn larger_value_ranks_higher(a: u32, b: u32)
    requires
        at_least(a, b),
        !at_least(b, a),
    ensures
        order_key(a) > order_key(b),
{
}

/// Negative infinity ranks below every pattern that is no NaN, and at the
/// same place only as itself.
pub proof fn negative_infinity_ranks_lowest(bits: u32)
    requires
        !is_nan(bits),
    ensures
        order_key(NEG_INFINITY) <= order_key(bits),
        order_key(NEG_INFINITY) == order_key(bits) ==> bits == NEG_INFINITY,
{
}

} // verus!
