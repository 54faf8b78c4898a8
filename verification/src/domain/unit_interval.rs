//! Hashes as numbers between zero and one.
//!
//! The top 24 bits of a hash are a number of 2^24ths. A 32-bit float holds each of
//! them exactly, so its bits can be written down with integers alone.

use vstd::prelude::*;

use crate::domain::float_bits::{less, position, FloatBits};

verus! {

/// The least mantissa of a float with its leading one, 2^23.
pub const LEADING_ONE: u64 = 0x80_0000;

/// One more than the most ticks, 2^24.
pub const TICKS: u64 = 0x100_0000;

/// The bits of a float of the given exponent whose mantissa is `ticks` after
/// enough doublings, each of which lowers the exponent by one.
pub open spec fn normalized(ticks: int, exponent: int) -> int
    decreases TICKS - ticks,
{
    if ticks >= LEADING_ONE || ticks <= 0 {
        exponent * 0x80_0000 + (ticks - LEADING_ONE)
    } else {
        normalized(2 * ticks, exponent - 1)
    }
}

/// The bits of `ticks` 2^24ths.
pub open spec fn unit_bits(ticks: u64) -> u32 {
    if ticks == 0 {
        0
    } else {
        normalized(ticks as int, 126) as u32
    }
}

pub open spec fn ticks_of(hash: u64) -> u64 {
    hash >> 40u64
}

/// Doubling stops before the exponent runs out.
proof fn lemma_normalized_range(ticks: int, exponent: int)
    requires
        0 < ticks < TICKS,
    ensures
        normalized(ticks, exponent) < (exponent + 1) * 0x80_0000,
        ticks >= LEADING_ONE ==> normalized(ticks, exponent) >= exponent * 0x80_0000,
    decreases TICKS - ticks,
{
    if ticks < LEADING_ONE {
        lemma_normalized_range(2 * ticks, exponent - 1);
    }
}

proof fn lemma_normalized_rises(a: int, b: int, exponent: int)
    requires
        0 < a < b < TICKS,
    ensures
        normalized(a, exponent) < normalized(b, exponent),
    decreases TICKS - a,
{
    lemma_normalized_range(a, exponent);
    lemma_normalized_range(b, exponent);
    if b < LEADING_ONE {
        lemma_normalized_rises(2 * a, 2 * b, exponent - 1);
    } else if a < LEADING_ONE {
        lemma_normalized_range(2 * a, exponent - 1);
    }
}

/// The least number above zero keeps a positive exponent.
proof fn lemma_normalized_floor(ticks: int)
    requires
        0 < ticks < TICKS,
    ensures
        normalized(ticks, 126) >= 103 * 0x80_0000,
{
    reveal_with_fuel(normalized, 25);
    assert(normalized(1, 126) == 103 * 0x80_0000);
    if ticks > 1 {
        lemma_normalized_rises(1, ticks, 126);
    }
}

/// The bits of the number that a hash stands for.
pub fn unit(hash: u64) -> (bits: FloatBits)
    ensures
        bits == unit_bits(ticks_of(hash)),
{
    let ticks: u64 = hash >> 40u64;
    assert(hash >> 40u64 < 0x100_0000) by (bit_vector);
    if ticks == 0 {
        return 0;
    }
    proof {
        lemma_normalized_floor(ticks as int);
        lemma_normalized_range(ticks as int, 126);
    }
    let mut mantissa: u64 = ticks;
    let mut exponent: u64 = 126;
    while mantissa < LEADING_ONE
        invariant
            0 < mantissa < TICKS,
            103 <= exponent <= 126,
            103 * 0x80_0000 <= normalized(ticks as int, 126) < 127 * 0x80_0000,
            normalized(mantissa as int, exponent as int) == normalized(ticks as int, 126),
        decreases TICKS - mantissa,
    {
        proof {
            lemma_normalized_range(mantissa as int, exponent as int);
            lemma_normalized_range(2 * mantissa as int, exponent - 1);
        }
        mantissa = mantissa * 2;
        exponent = exponent - 1;
    }
    (exponent * 0x80_0000 + (mantissa - LEADING_ONE)) as u32
}

/// Hashes stand for numbers from zero up to, not including, one, and more ticks
/// stand for larger numbers.
pub proof fn law_units_are_ordered(a: u64, b: u64)
    requires
        a < TICKS,
        b < TICKS,
    ensures
        less(unit_bits(a), unit_bits(b)) == (a < b),
        less(unit_bits(a), 0x3F80_0000),
        position(unit_bits(a)) >= 0,
{
    if a > 0 {
        lemma_normalized_floor(a as int);
        lemma_normalized_range(a as int, 126);
    }
    if b > 0 {
        lemma_normalized_floor(b as int);
        lemma_normalized_range(b as int, 126);
    }
    if 0 < a < b {
        lemma_normalized_rises(a as int, b as int, 126);
    }
    if 0 < b < a {
        lemma_normalized_rises(b as int, a as int, 126);
    }
}

/// Ticks are even steps. From one half on every tick is one step of the mantissa, and
/// twice as many ticks stand for twice the number: the same mantissa, one exponent on.
pub proof fn law_ticks_are_even_steps(ticks: u64)
    requires
        0 < ticks < 0x100_0000,
    ensures
        ticks >= 0x80_0000 ==> unit_bits(ticks) == 0x3F00_0000 + (ticks - 0x80_0000),
        ticks < 0x80_0000 ==> unit_bits((2 * ticks) as u64) == unit_bits(ticks) + 0x80_0000,
{
    lemma_normalized_floor(ticks as int);
    lemma_normalized_range(ticks as int, 126);
    if ticks < 0x80_0000 {
        lemma_normalized_range(2 * ticks as int, 126);
        lemma_normalized_shift(2 * ticks as int, 126);
    }
}

proof fn lemma_normalized_shift(ticks: int, exponent: int)
    requires
        0 < ticks < TICKS,
    ensures
        normalized(ticks, exponent) == normalized(ticks, exponent - 1) + 0x80_0000,
    decreases TICKS - ticks,
{
    if ticks < LEADING_ONE {
        lemma_normalized_shift(2 * ticks, exponent - 1);
    }
}

/// A hash counts by its top 24 bits: it stands for no more ticks than fit below one,
/// and a larger hash never for fewer.
pub proof fn law_hashes_count_by_their_top_bits(a: u64, b: u64)
    ensures
        ticks_of(a) < 0x100_0000,
        ticks_of(a) == a / 0x100_0000_0000,
        a <= b ==> ticks_of(a) <= ticks_of(b),
{
    assert(a >> 40u64 == a / 0x100_0000_0000 && b >> 40u64 == b / 0x100_0000_0000) by (bit_vector);
}

} // verus!
