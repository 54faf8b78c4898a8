//! Comparing 32-bit floats by their bit patterns.
//!
//! World coordinates and noise reach this crate as the raw bits of IEEE 754
//! binary32 values. Comparing, choosing the smaller or larger of two, and
//! changing the sign need no arithmetic, so they are done on the bits.

use vstd::prelude::*;

verus! {

/// The sign bit alone: the bits of negative zero.
pub const SIGN_BIT: u32 = 0x8000_0000;

/// The bits of positive infinity, the largest magnitude of a number.
pub const INFINITY_BITS: u32 = 0x7F80_0000;

/// The bits without the sign.
pub open spec fn magnitude(bits: u32) -> int {
    if bits >= SIGN_BIT {
        bits - SIGN_BIT
    } else {
        bits as int
    }
}

/// Position of a number on the real line, up to a strictly increasing map. Both
/// zeros share one position.
pub open spec fn position(bits: u32) -> int {
    if bits >= SIGN_BIT {
        -magnitude(bits)
    } else {
        magnitude(bits)
    }
}

pub open spec fn is_nan_bits(bits: u32) -> bool {
    magnitude(bits) > INFINITY_BITS
}

/// `a < b`; false when either is not a number.
pub open spec fn less(a: u32, b: u32) -> bool {
    !is_nan_bits(a) && !is_nan_bits(b) && position(a) < position(b)
}

/// `a <= b`; false when either is not a number.
pub open spec fn at_most(a: u32, b: u32) -> bool {
    !is_nan_bits(a) && !is_nan_bits(b) && position(a) <= position(b)
}

/// `a == b`; false when either is not a number.
pub open spec fn same_number(a: u32, b: u32) -> bool {
    !is_nan_bits(a) && !is_nan_bits(b) && position(a) == position(b)
}

/// The same number with the other sign.
pub open spec fn negated(bits: u32) -> u32 {
    if bits >= SIGN_BIT {
        (bits - SIGN_BIT) as u32
    } else {
        (bits + SIGN_BIT) as u32
    }
}

fn position_of(bits: u32) -> (p: i64)
    ensures
        p == position(bits),
{
    if bits >= SIGN_BIT {
        -((bits - SIGN_BIT) as i64)
    } else {
        bits as i64
    }
}

pub fn bits_is_nan(bits: u32) -> (nan: bool)
    ensures
        nan == is_nan_bits(bits),
{
    if bits >= SIGN_BIT {
        bits - SIGN_BIT > INFINITY_BITS
    } else {
        bits > INFINITY_BITS
    }
}

pub fn bits_less(a: u32, b: u32) -> (r: bool)
    ensures
        r == less(a, b),
{
    !bits_is_nan(a) && !bits_is_nan(b) && position_of(a) < position_of(b)
}

pub fn bits_at_most(a: u32, b: u32) -> (r: bool)
    ensures
        r == at_most(a, b),
{
    !bits_is_nan(a) && !bits_is_nan(b) && position_of(a) <= position_of(b)
}

pub fn bits_equal(a: u32, b: u32) -> (r: bool)
    ensures
        r == same_number(a, b),
{
    !bits_is_nan(a) && !bits_is_nan(b) && position_of(a) == position_of(b)
}

pub fn bits_negated(bits: u32) -> (r: u32)
    ensures
        r == negated(bits),
{
    if bits >= SIGN_BIT {
        bits - SIGN_BIT
    } else {
        bits + SIGN_BIT
    }
}

/// Negation undoes itself and mirrors positions.
pub proof fn law_negation(bits: u32)
    ensures
        negated(negated(bits)) == bits,
        position(negated(bits)) == -position(bits),
        is_nan_bits(negated(bits)) == is_nan_bits(bits),
{
}

/// The bits of a 32-bit float.
pub type FloatBits = u32;

/// The number without its sign.
pub open spec fn absolute(bits: u32) -> u32 {
    magnitude(bits) as u32
}

pub fn bits_absolute(bits: u32) -> (r: u32)
    ensures
        r == absolute(bits),
{
    if bits >= SIGN_BIT {
        bits - SIGN_BIT
    } else {
        bits
    }
}

/// The smaller of two numbers, the first when they are equal; where one is not a
/// number, the other.
pub open spec fn smaller(a: u32, b: u32) -> u32 {
    if is_nan_bits(a) {
        b
    } else if is_nan_bits(b) || position(a) <= position(b) {
        a
    } else {
        b
    }
}

/// The larger of two numbers, the second when they are equal; where one is not a
/// number, the other.
pub open spec fn larger(a: u32, b: u32) -> u32 {
    if is_nan_bits(a) {
        b
    } else if is_nan_bits(b) || position(a) > position(b) {
        a
    } else {
        b
    }
}

pub fn bits_min(a: u32, b: u32) -> (r: u32)
    ensures
        r == smaller(a, b),
{
    if bits_is_nan(a) {
        b
    } else if bits_is_nan(b) || position_of(a) <= position_of(b) {
        a
    } else {
        b
    }
}

pub fn bits_max(a: u32, b: u32) -> (r: u32)
    ensures
        r == larger(a, b),
{
    if bits_is_nan(a) {
        b
    } else if bits_is_nan(b) || position_of(a) > position_of(b) {
        a
    } else {
        b
    }
}

/// The number moved to the nearer end of a range that it lies outside of. What is
/// not a number stays as it is.
pub open spec fn clamped(bits: u32, low: u32, high: u32) -> u32 {
    if less(bits, low) {
        low
    } else if less(high, bits) {
        high
    } else {
        bits
    }
}

pub fn bits_clamped(bits: u32, low: u32, high: u32) -> (r: u32)
    ensures
        r == clamped(bits, low, high),
{
    if bits_less(bits, low) {
        low
    } else if bits_less(high, bits) {
        high
    } else {
        bits
    }
}

/// Clamping a number into a proper range lands inside it.
pub proof fn law_clamped_is_inside(bits: u32, low: u32, high: u32)
    requires
        !is_nan_bits(bits),
        at_most(low, high),
    ensures
        at_most(low, clamped(bits, low, high)),
        at_most(clamped(bits, low, high), high),
{
}

/// Place in the total order of all bit patterns: negative zero comes right before
/// zero, and patterns that are not numbers come before or after all numbers.
pub open spec fn total_rank(bits: u32) -> int {
    if bits >= SIGN_BIT {
        -magnitude(bits) - 1
    } else {
        magnitude(bits)
    }
}

/// Whether `a` comes before `b` or is `b` in the total order of bit patterns.
pub fn bits_rank_at_most(a: u32, b: u32) -> (r: bool)
    ensures
        r == (total_rank(a) <= total_rank(b)),
{
    if a >= SIGN_BIT {
        b < SIGN_BIT || b <= a
    } else {
        b < SIGN_BIT && a <= b
    }
}

/// The total order puts no two patterns in one place.
pub proof fn law_total_rank_is_strict(a: u32, b: u32)
    requires
        total_rank(a) == total_rank(b),
    ensures
        a == b,
{
}

/// The order of numbers: of two numbers one is less than the other or they are the same,
/// never both; it carries over from one pair to the next; and nothing is less than, or
/// the same as, what is no number.
pub proof fn law_numbers_are_ordered(a: u32, b: u32, c: u32)
    ensures
        !is_nan_bits(a) && !is_nan_bits(b) ==> (less(a, b) || less(b, a) || same_number(a, b)),
        !(less(a, b) && less(b, a)) && !(less(a, b) && same_number(a, b)),
        less(a, b) && less(b, c) ==> less(a, c),
        at_most(a, b) <==> less(a, b) || same_number(a, b),
        is_nan_bits(a) ==> !less(a, b) && !less(b, a) && !same_number(a, b) && !at_most(a, b)
            && !at_most(b, a),
        same_number(0, 0x8000_0000),
        less(0x8000_0001, 0) && less(0, 1) && less(0xBF80_0000, 0x3F80_0000),
        a < b < 0x7F80_0000 ==> less(a, b),
        0x8000_0000 <= a < b <= 0xFF80_0000 ==> less(b, a),
        is_nan_bits(a) <==> 0x7F80_0000 < a < 0x8000_0000 || 0xFF80_0000 < a,
{
}

/// The smaller and the larger of two numbers are those numbers, in order; beside what is
/// no number, the other one is both.
pub proof fn law_smaller_and_larger_bound(a: u32, b: u32)
    ensures
        smaller(a, b) == a || smaller(a, b) == b,
        larger(a, b) == a || larger(a, b) == b,
        !is_nan_bits(a) && !is_nan_bits(b) ==> at_most(smaller(a, b), a) && at_most(smaller(a, b), b)
            && at_most(a, larger(a, b)) && at_most(b, larger(a, b)),
        is_nan_bits(a) ==> smaller(a, b) == b && larger(a, b) == b,
        is_nan_bits(b) && !is_nan_bits(a) ==> smaller(a, b) == a && larger(a, b) == a,
        less(a, b) ==> smaller(a, b) == a && larger(a, b) == b,
{
}

/// A number without its sign is as far from zero and never below it.
pub proof fn law_absolute_is_the_distance_from_zero(a: u32)
    ensures
        absolute(a) < 0x8000_0000,
        absolute(a) == a || absolute(a) == negated(a),
        !is_nan_bits(a) ==> !less(absolute(a), 0) && at_most(a, absolute(a)),
        absolute(negated(a)) == absolute(a),
{
}

} // verus!
