//! Keys that order IEEE-754 binary64 bit patterns the way `f64::total_cmp`
//! orders the numbers they encode.
//!
//! The library never holds a floating-point number: a coordinate, a distance
//! or a weight is carried as its bit pattern (`f64::to_bits`), and two of them
//! are compared through their keys.
use vstd::prelude::*;

verus! {

/// The sign bit of a binary64 bit pattern.
pub const SIGN_BIT: u64 = 0x8000_0000_0000_0000u64;

/// The exponent field of a binary64 bit pattern, all ones.
pub const EXPONENT_BITS: u64 = 0x7FF0_0000_0000_0000u64;

/// The bit pattern of `+0.0`.
pub const POSITIVE_ZERO: u64 = 0u64;

/// The IEEE-754 `totalOrder` predicate on two bit patterns: a pattern with the
/// sign bit set comes before one without it; among patterns without it the
/// larger magnitude is greater; among patterns with it the larger magnitude
/// is smaller.
pub open spec fn total_le(a: u64, b: u64) -> bool {
    let neg_a = a & SIGN_BIT != 0;
    let neg_b = b & SIGN_BIT != 0;
    if neg_a && !neg_b {
        true
    } else if !neg_a && neg_b {
        false
    } else if !neg_a {
        a <= b
    } else {
        b <= a
    }
}

/// The key of a bit pattern.
pub open spec fn key_of(bits: u64) -> u64 {
    if bits & SIGN_BIT != 0 {
        !bits
    } else {
        bits | SIGN_BIT
    }
}

/// Whether a bit pattern encodes `+inf` or `-inf`.
pub open spec fn encodes_infinity(bits: u64) -> bool {
    bits & !SIGN_BIT == EXPONENT_BITS
}

/// Whether a bit pattern encodes a NaN.
pub open spec fn encodes_nan(bits: u64) -> bool {
    bits & !SIGN_BIT > EXPONENT_BITS
}

/// The key under which comparing two non-NaN patterns is comparing the
/// numbers they encode with `<` and `==`: `-0.0` takes the key of `+0.0`.
pub open spec fn numeric_key_of(bits: u64) -> u64 {
    if bits == SIGN_BIT {
        key_of(POSITIVE_ZERO)
    } else {
        key_of(bits)
    }
}

/// Whether a binary64 bit pattern encodes a NaN, as `f64::is_nan` tells of the
/// number.
pub fn is_nan(bits: u64) -> (r: bool)
    ensures
        r == encodes_nan(bits),
{
    bits & !SIGN_BIT > EXPONENT_BITS
}

/// Maps a binary64 bit pattern to its numeric key (see [`numeric_key_of`]).
pub fn numeric_key(bits: u64) -> (key: u64)
    ensures
        key == numeric_key_of(bits),
{
    if bits == SIGN_BIT {
        order_key(POSITIVE_ZERO)
    } else {
        order_key(bits)
    }
}

/// IEEE `<` on the numbers two bit patterns encode: false when either is a
/// NaN, and otherwise the numeric order, under which `-0.0` equals `+0.0`.
pub open spec fn float_lt(a: u64, b: u64) -> bool {
    !encodes_nan(a) && !encodes_nan(b) && numeric_key_of(a) < numeric_key_of(b)
}

/// A pattern that is neither a NaN nor `-0.0`: among such patterns IEEE `<`
/// and `f64::total_cmp` agree.
pub open spec fn ordinary(bits: u64) -> bool {
    !encodes_nan(bits) && bits != SIGN_BIT
}

/// Every pattern of `s` is ordinary.
pub open spec fn all_ordinary(s: Seq<u64>) -> bool {
    forall|j: int| 0 <= j < s.len() ==> ordinary(#[trigger] s[j])
}

/// IEEE `<` on the numbers that two binary64 bit patterns encode, as `a < b`
/// on `f64` tells.
pub fn float_less(a: u64, b: u64) -> (r: bool)
    ensures
        r == float_lt(a, b),
{
    !is_nan(a) && !is_nan(b) && numeric_key(a) < numeric_key(b)
}

/// Between ordinary patterns, IEEE `<` is the order of the keys.
pub proof fn lemma_float_lt_ordinary(a: u64, b: u64)
    requires
        ordinary(a),
        ordinary(b),
    ensures
        float_lt(a, b) <==> key_of(a) < key_of(b),
{
}

/// Maps a binary64 bit pattern to its ordering key.
pub fn order_key(bits: u64) -> (key: u64)
    ensures
        key == key_of(bits),
{
    if bits & SIGN_BIT != 0 {
        !bits
    } else {
        bits | SIGN_BIT
    }
}

/// Whether a binary64 bit pattern encodes an infinity, as `f64::is_infinite`
/// tells of the number.
pub fn is_infinite(bits: u64) -> (r: bool)
    ensures
        r == encodes_infinity(bits),
{
    bits & !SIGN_BIT == EXPONENT_BITS
}

/// Comparing keys is the `totalOrder` predicate on the patterns, and two
/// patterns have the same key only if they are the same pattern.
pub proof fn lemma_key_order(a: u64, b: u64)
    ensures
        key_of(a) <= key_of(b) <==> total_le(a, b),
        key_of(a) == key_of(b) <==> a == b,
{
    assert((if a & 0x8000_0000_0000_0000u64 != 0 { !a } else { a | 0x8000_0000_0000_0000u64 })
        <= (if b & 0x8000_0000_0000_0000u64 != 0 { !b } else { b | 0x8000_0000_0000_0000u64 })
        <==> (if (a & 0x8000_0000_0000_0000u64 != 0) && !(b & 0x8000_0000_0000_0000u64 != 0) {
        true
    } else if !(a & 0x8000_0000_0000_0000u64 != 0) && (b & 0x8000_0000_0000_0000u64 != 0) {
        false
    } else if !(a & 0x8000_0000_0000_0000u64 != 0) {
        a <= b
    } else {
        b <= a
    })) by (bit_vector);
    assert(((if a & 0x8000_0000_0000_0000u64 != 0 { !a } else { a | 0x8000_0000_0000_0000u64 })
        == (if b & 0x8000_0000_0000_0000u64 != 0 { !b } else { b | 0x8000_0000_0000_0000u64 }))
        <==> a == b) by (bit_vector);
}

/// The exponent field of a binary64 bit pattern.
pub open spec fn exponent_field(bits: u64) -> u64 {
    (bits >> 52u64) & 0x7FFu64
}

/// The mantissa field of a binary64 bit pattern.
pub open spec fn mantissa_field(bits: u64) -> u64 {
    bits & 0x000F_FFFF_FFFF_FFFFu64
}

/// A pattern encodes a NaN exactly when its exponent field is all ones and
/// its mantissa is not zero; every finite number (exponent field not all
/// ones) and both infinities are not NaN.
pub proof fn law_nan_is_all_ones_exponent_and_nonzero_mantissa(bits: u64)
    ensures
        encodes_nan(bits) <==> exponent_field(bits) == 0x7FF && mantissa_field(bits) != 0,
        exponent_field(bits) != 0x7FF ==> !encodes_nan(bits),
{
    assert((bits & !0x8000_0000_0000_0000u64 > 0x7FF0_0000_0000_0000u64) <==> (((bits >> 52u64) & 0x7FFu64)
        == 0x7FFu64 && (bits & 0x000F_FFFF_FFFF_FFFFu64) != 0)) by (bit_vector);
}

/// A pattern encodes an infinity exactly when it is the pattern of `+inf` or
/// of `-inf`: exponent field all ones and mantissa zero.
pub proof fn law_infinity_is_all_ones_exponent_and_zero_mantissa(bits: u64)
    ensures
        encodes_infinity(bits) <==> exponent_field(bits) == 0x7FF && mantissa_field(bits) == 0,
        encodes_infinity(bits) <==> bits == 0x7FF0_0000_0000_0000u64 || bits == 0xFFF0_0000_0000_0000u64,
{
    assert((bits & !0x8000_0000_0000_0000u64 == 0x7FF0_0000_0000_0000u64) <==> (((bits >> 52u64) & 0x7FFu64)
        == 0x7FFu64 && (bits & 0x000F_FFFF_FFFF_FFFFu64) == 0)) by (bit_vector);
    assert((bits & !0x8000_0000_0000_0000u64 == 0x7FF0_0000_0000_0000u64) <==> (bits
        == 0x7FF0_0000_0000_0000u64 || bits == 0xFFF0_0000_0000_0000u64)) by (bit_vector);
}

/// Every finite pattern other than `-0.0` is ordinary, and so is every
/// infinity: only NaNs and `-0.0` are not.
pub proof fn law_ordinary_patterns(bits: u64)
    ensures
        ordinary(bits) <==> !(exponent_field(bits) == 0x7FF && mantissa_field(bits) != 0) && bits
            != 0x8000_0000_0000_0000u64,
{
    law_nan_is_all_ones_exponent_and_nonzero_mantissa(bits);
}

/// IEEE `<` between two ordinary patterns is the IEEE `totalOrder` predicate
/// without its equality case.
pub proof fn law_float_lt_is_total_order_on_ordinary(a: u64, b: u64)
    requires
        ordinary(a),
        ordinary(b),
    ensures
        float_lt(a, b) <==> total_le(a, b) && a != b,
{
    lemma_key_order(a, b);
}

} // verus!
