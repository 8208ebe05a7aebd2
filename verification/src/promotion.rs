//! Promotion of single-precision numbers to double precision, as C performs
//! it on the arguments of a variadic call.
//!
//! Numbers are given by their IEEE 754 bit patterns: a sign, a biased
//! exponent and a fraction. The promoted pattern denotes the same number.

use vstd::arithmetic::power2::*;
use vstd::prelude::*;

verus! {

/// Whether the sign bit of a single-precision pattern is set.
pub open spec fn single_negative(bits: u32) -> bool {
    bits >= 0x8000_0000
}

/// The biased exponent of a single-precision pattern: 8 bits.
pub open spec fn single_exponent(bits: u32) -> int {
    (bits as int / 0x80_0000) % 0x100
}

/// The fraction of a single-precision pattern: 23 bits.
pub open spec fn single_fraction(bits: u32) -> int {
    bits as int % 0x80_0000
}

/// Whether a single-precision pattern denotes a number, zero included.
pub open spec fn single_is_finite(bits: u32) -> bool {
    single_exponent(bits) != 0xff
}

/// Whether a single-precision pattern denotes an infinity.
pub open spec fn single_is_infinite(bits: u32) -> bool {
    single_exponent(bits) == 0xff && single_fraction(bits) == 0
}

/// Whether a single-precision pattern denotes no number.
pub open spec fn single_is_nan(bits: u32) -> bool {
    single_exponent(bits) == 0xff && single_fraction(bits) != 0
}

/// The magnitude that a finite single-precision pattern denotes, counted in
/// units of 2 to the power of -149, the smallest magnitude above zero.
pub open spec fn single_magnitude(bits: u32) -> int {
    if single_exponent(bits) == 0 {
        single_fraction(bits)
    } else {
        (0x80_0000 + single_fraction(bits)) * pow2((single_exponent(bits) - 1) as nat)
    }
}

/// Whether the sign bit of a double-precision pattern is set.
pub open spec fn double_negative(bits: u64) -> bool {
    bits >= 0x8000_0000_0000_0000
}

/// The biased exponent of a double-precision pattern: 11 bits.
pub open spec fn double_exponent(bits: u64) -> int {
    (bits as int / 0x10_0000_0000_0000) % 0x800
}

/// The fraction of a double-precision pattern: 52 bits.
pub open spec fn double_fraction(bits: u64) -> int {
    bits as int % 0x10_0000_0000_0000
}

/// Whether a double-precision pattern denotes a number, zero included.
pub open spec fn double_is_finite(bits: u64) -> bool {
    double_exponent(bits) != 0x7ff
}

/// Whether a double-precision pattern denotes an infinity.
pub open spec fn double_is_infinite(bits: u64) -> bool {
    double_exponent(bits) == 0x7ff && double_fraction(bits) == 0
}

/// Whether a double-precision pattern denotes no number.
pub open spec fn double_is_nan(bits: u64) -> bool {
    double_exponent(bits) == 0x7ff && double_fraction(bits) != 0
}

/// The magnitude that a finite double-precision pattern denotes, counted in
/// units of 2 to the power of -1074, the smallest magnitude above zero.
pub open spec fn double_magnitude(bits: u64) -> int {
    if double_exponent(bits) == 0 {
        double_fraction(bits)
    } else {
        (0x10_0000_0000_0000 + double_fraction(bits)) * pow2((double_exponent(bits) - 1) as nat)
    }
}

/// How often the fraction of a subnormal single-precision number is doubled
/// until it reaches 2 to the power of 23, where normal numbers start.
pub open spec fn normalizing_shift(fraction: int) -> int
    decreases 0x100_0000 - fraction,
{
    if fraction <= 0 || fraction >= 0x80_0000 {
        0
    } else {
        1 + normalizing_shift(2 * fraction)
    }
}

/// A double-precision pattern put together from its sign, its biased
/// exponent and its fraction.
pub open spec fn double_of(negative: bool, exponent: int, fraction: int) -> int {
    (if negative {
        0x8000_0000_0000_0000int
    } else {
        0int
    }) + exponent * 0x10_0000_0000_0000 + fraction
}

/// The double-precision pattern of the number that a single-precision
/// pattern denotes.
///
/// Infinities stay infinities, and what is no number stays none and keeps its
/// sign and the bits of its fraction. A subnormal single-precision number is
/// a normal double-precision one.
pub open spec fn promoted(bits: u32) -> u64 {
    let negative = single_negative(bits);
    let exponent = single_exponent(bits);
    let fraction = single_fraction(bits);
    if exponent == 0xff {
        double_of(negative, 0x7ff, fraction * 0x2000_0000) as u64
    } else if exponent != 0 {
        double_of(negative, exponent + 896, fraction * 0x2000_0000) as u64
    } else if fraction == 0 {
        double_of(negative, 0, 0) as u64
    } else {
        let shift = normalizing_shift(fraction);
        double_of(
            negative,
            897 - shift,
            (fraction * pow2(shift as nat) - 0x80_0000) * 0x2000_0000,
        ) as u64
    }
}

/// A pattern put together from a sign, an exponent of 11 bits and a fraction
/// of 52 bits fits 64 bits and has these three as its parts.
pub proof fn lemma_double_of_parts(negative: bool, exponent: int, fraction: int)
    requires
        0 <= exponent < 0x800,
        0 <= fraction < 0x10_0000_0000_0000,
    ensures
        0 <= double_of(negative, exponent, fraction) <= u64::MAX,
        double_negative(double_of(negative, exponent, fraction) as u64) == negative,
        double_exponent(double_of(negative, exponent, fraction) as u64) == exponent,
        double_fraction(double_of(negative, exponent, fraction) as u64) == fraction,
{
    let high = exponent * 0x10_0000_0000_0000;
    assert(0 <= high <= 0x7ff * 0x10_0000_0000_0000) by (nonlinear_arith)
        requires
            0 <= exponent < 0x800,
            high == exponent * 0x10_0000_0000_0000,
    ;
    let whole = double_of(negative, exponent, fraction);
    let top: int = if negative { 0x800 } else { 0 };
    assert(whole == (top + exponent) * 0x10_0000_0000_0000 + fraction) by (nonlinear_arith)
        requires
            whole == top * 0x10_0000_0000_0000 + exponent * 0x10_0000_0000_0000 + fraction,
    ;
    assert(whole / 0x10_0000_0000_0000 == top + exponent && whole % 0x10_0000_0000_0000
        == fraction) by (nonlinear_arith)
        requires
            whole == (top + exponent) * 0x10_0000_0000_0000 + fraction,
            0 <= fraction < 0x10_0000_0000_0000,
    ;
}

/// No fraction is doubled a negative number of times.
pub proof fn lemma_normalizing_shift_natural(fraction: int)
    ensures
        normalizing_shift(fraction) >= 0,
    decreases 0x100_0000 - fraction,
{
    if 0 < fraction < 0x80_0000 {
        lemma_normalizing_shift_natural(2 * fraction);
    }
}

/// Doubling a subnormal fraction as often as [`normalizing_shift`] says
/// brings it into the range of normal fractions, within 23 doublings.
pub proof fn lemma_normalizing_shift(fraction: int)
    requires
        0 < fraction < 0x80_0000,
    ensures
        1 <= normalizing_shift(fraction) <= 23,
        0x80_0000 <= fraction * pow2(normalizing_shift(fraction) as nat) < 0x100_0000,
        fraction * pow2((normalizing_shift(fraction) - 1) as nat) < 0x80_0000,
    decreases 0x100_0000 - fraction,
{
    lemma2_to64();
    if 2 * fraction >= 0x80_0000 {
        assert(normalizing_shift(2 * fraction) == 0);
        assert(fraction * pow2(1) == 2 * fraction);
        assert(fraction * pow2(0) == fraction);
    } else {
        lemma_normalizing_shift(2 * fraction);
        let rest = normalizing_shift(2 * fraction);
        lemma_pow2_unfold((rest + 1) as nat);
        lemma_pow2_unfold(rest as nat);
        assert(fraction * pow2((rest + 1) as nat) == (2 * fraction) * pow2(rest as nat))
            by (nonlinear_arith)
            requires
                pow2((rest + 1) as nat) == 2 * pow2(rest as nat),
        ;
        assert(fraction * pow2(rest as nat) == (2 * fraction) * pow2((rest - 1) as nat))
            by (nonlinear_arith)
            requires
                pow2(rest as nat) == 2 * pow2((rest - 1) as nat),
        ;
        // 23 doublings at most: a fraction of at least 1 reaches 2^23 by then.
        if rest == 23 {
            lemma_pow2_unfold(23);
            assert(pow2(22) == 0x40_0000);
            assert((2 * fraction) * pow2(22) >= 0x80_0000) by (nonlinear_arith)
                requires
                    fraction >= 1,
                    pow2(22) == 0x40_0000,
            ;
        }
    }
}

/// Promotion keeps the sign, keeps infinities and what is no number as they
/// are, and gives every finite number a finite pattern of the same
/// magnitude: a unit of single precision is 2 to the power of 925 units of
/// double precision.
pub proof fn lemma_promoted_keeps_value(bits: u32)
    ensures
        double_negative(promoted(bits)) == single_negative(bits),
        double_is_infinite(promoted(bits)) == single_is_infinite(bits),
        double_is_nan(promoted(bits)) == single_is_nan(bits),
        double_is_finite(promoted(bits)) == single_is_finite(bits),
        single_is_finite(bits) ==> double_magnitude(promoted(bits)) == single_magnitude(bits)
            * pow2(925),
{
    let negative = single_negative(bits);
    let exponent = single_exponent(bits);
    let fraction = single_fraction(bits);
    lemma2_to64();
    if exponent == 0xff {
        lemma_double_of_parts(negative, 0x7ff, fraction * 0x2000_0000);
    } else if exponent != 0 {
        lemma_double_of_parts(negative, exponent + 896, fraction * 0x2000_0000);
        lemma_pow2_adds(29, (exponent + 895) as nat);
        lemma_pow2_adds((exponent - 1) as nat, 925);
        let low = pow2((exponent - 1) as nat);
        let high = pow2((exponent + 895) as nat);
        let both = pow2((exponent + 924) as nat);
        assert(both == pow2(29) * high);
        assert(both == low * pow2(925));
        assert((0x10_0000_0000_0000 + fraction * 0x2000_0000) * high == ((0x80_0000 + fraction)
            * low) * pow2(925)) by (nonlinear_arith)
            requires
                both == 0x2000_0000 * high,
                both == low * pow2(925),
        ;
    } else if fraction == 0 {
        lemma_double_of_parts(negative, 0, 0);
        assert(0 * pow2(925) == 0);
    } else {
        lemma_normalizing_shift(fraction);
        let shift = normalizing_shift(fraction);
        let scaled = fraction * pow2(shift as nat);
        lemma_double_of_parts(negative, 897 - shift, (scaled - 0x80_0000) * 0x2000_0000);
        lemma_pow2_adds(29, (896 - shift) as nat);
        lemma_pow2_adds(shift as nat, (925 - shift) as nat);
        let high = pow2((896 - shift) as nat);
        let rest = pow2((925 - shift) as nat);
        assert(rest == pow2(29) * high);
        assert(pow2(925) == pow2(shift as nat) * rest);
        assert((0x10_0000_0000_0000 + (scaled - 0x80_0000) * 0x2000_0000) * high == fraction
            * pow2(925)) by (nonlinear_arith)
            requires
                scaled == fraction * pow2(shift as nat),
                pow2(925) == pow2(shift as nat) * rest,
                rest == 0x2000_0000 * high,
        ;
    }
}

/// Promotes a single-precision pattern to double precision.
pub fn promote(bits: u32) -> (r: u64)
    ensures
        r == promoted(bits),
{
    let negative = bits >= 0x8000_0000;
    let sign: u64 = if negative {
        0x8000_0000_0000_0000
    } else {
        0
    };
    let exponent: u64 = ((bits / 0x80_0000) % 0x100) as u64;
    let fraction: u64 = (bits % 0x80_0000) as u64;
    if exponent == 0xff {
        proof {
            lemma_double_of_parts(negative, 0x7ff, fraction * 0x2000_0000);
        }
        sign + 0x7ff0_0000_0000_0000 + fraction * 0x2000_0000
    } else if exponent != 0 {
        proof {
            lemma_double_of_parts(negative, exponent + 896, fraction * 0x2000_0000);
        }
        sign + (exponent + 896) * 0x10_0000_0000_0000 + fraction * 0x2000_0000
    } else if fraction == 0 {
        sign
    } else {
        let mut scaled: u64 = fraction;
        let mut shift: u64 = 0;
        proof {
            lemma2_to64();
            lemma_normalizing_shift(fraction as int);
        }
        while scaled < 0x80_0000
            invariant
                0 < fraction < 0x80_0000,
                0 < scaled < 0x100_0000,
                shift <= 23,
                scaled == fraction * pow2(shift as nat),
                normalizing_shift(fraction as int) == shift + normalizing_shift(scaled as int),
            decreases 0x100_0000 - scaled,
        {
            proof {
                lemma_normalizing_shift_natural(2 * scaled);
                lemma_pow2_unfold((shift + 1) as nat);
                assert(fraction * pow2((shift + 1) as nat) == 2 * (fraction * pow2(shift as nat)))
                    by (nonlinear_arith)
                    requires
                        pow2((shift + 1) as nat) == 2 * pow2(shift as nat),
                ;
                lemma_normalizing_shift(fraction as int);
            }
            scaled = scaled * 2;
            shift = shift + 1;
        }
        proof {
            lemma_normalizing_shift(fraction as int);
            lemma_double_of_parts(negative, 897 - shift, (scaled - 0x80_0000) * 0x2000_0000);
        }
        sign + (897 - shift) * 0x10_0000_0000_0000 + (scaled - 0x80_0000) * 0x2000_0000
    }
}

} // verus!
