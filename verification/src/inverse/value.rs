//! Inverse quantization of one coefficient: the power of four thirds, and the
//! gain of a scale factor.

use vstd::arithmetic::div_mod::{lemma_basic_div, lemma_div_is_ordered, lemma_fundamental_div_mod};
use vstd::arithmetic::power2::{
    lemma2_to64, lemma_pow2_adds, lemma_pow2_pos, lemma_pow2_strictly_increases, lemma_pow2_unfold, pow2,
};
use vstd::prelude::*;

use crate::fixed::{power_of_two, saturated, FixpDbl, MAXVAL_DBL};

verus! {

/// Whether a number is the cube root of another, rounded down.
pub open spec fn is_cube_root(value: nat, root: nat) -> bool {
    root * root * root <= value < (root + 1) * (root + 1) * (root + 1)
}

/// The cube root of a number, rounded down.
pub open spec fn cube_root(value: nat) -> nat {
    choose|root: nat| is_cube_root(value, root)
}

proof fn lemma_cube_grows(low: nat, high: nat)
    requires
        low <= high,
    ensures
        low * low * low <= high * high * high,
{
    assert(low * low * low <= high * high * high) by (nonlinear_arith)
        requires
            0 <= low <= high,
    ;
}

/// A number has only one cube root.
pub proof fn lemma_cube_root_unique(value: nat, root: nat)
    requires
        is_cube_root(value, root),
    ensures
        cube_root(value) == root,
{
    let other = cube_root(value);
    assert(is_cube_root(value, other));
    if other < root {
        lemma_cube_grows(other + 1, root);
    } else if root < other {
        lemma_cube_grows(root + 1, other);
    }
}

/// Whether the cube of `middle` is at most `value`, without computing the cube.
fn cube_at_most(middle: u128, value: u128) -> (at_most: bool)
    requires
        1 <= middle <= 0x800_0000_0000,
    ensures
        at_most == (middle * middle * middle <= value),
{
    proof {
        assert(1 <= middle * middle <= 0x40_0000_0000_0000_0000_0000) by (nonlinear_arith)
            requires
                1 <= middle <= 0x800_0000_0000,
        ;
    }
    let square: u128 = middle * middle;
    let quotient: u128 = value / square;
    proof {
        lemma_fundamental_div_mod(value as int, square as int);
        let rest = value % square;
        if middle <= quotient {
            assert(square * middle <= square * quotient) by (nonlinear_arith)
                requires
                    0 <= middle <= quotient,
                    square >= 1,
            ;
        } else {
            assert(square * quotient + square <= square * middle) by (nonlinear_arith)
                requires
                    quotient + 1 <= middle,
                    square >= 1,
            ;
        }
    }
    middle <= quotient
}

/// The root that the largest number stands for: seven eighths of two to the power
/// of 43, where the search for a root meets the first cube out of range.
pub const LARGEST_ROOT: u128 = 0x700_0000_0000;

/// The cube root of a number, rounded down. The largest number stands for all
/// that is out of range, and has a root of its own, larger than any other.
pub open spec fn bounded_root(value: nat) -> nat {
    if value == u128::MAX {
        LARGEST_ROOT as nat
    } else {
        cube_root(value)
    }
}

/// The cube root of a number, rounded down; that of the largest number is
/// [`LARGEST_ROOT`].
pub fn integer_cuberoot_u128(value: u128) -> (root: u128)
    ensures
        root == bounded_root(value as nat),
        value < u128::MAX ==> is_cube_root(value as nat, root as nat),
        root <= LARGEST_ROOT,
{
    if value == u128::MAX {
        return LARGEST_ROOT;
    }
    let mut low: u128 = 0;
    let mut high: u128 = 0x800_0000_0000;
    assert(0x800_0000_0000 * 0x800_0000_0000 * 0x800_0000_0000 > u128::MAX);
    while high - low > 1
        invariant
            low < high <= 0x800_0000_0000,
            low * low * low <= value < high * high * high,
        decreases high - low,
    {
        let middle: u128 = low + (high - low) / 2;
        if cube_at_most(middle, value) {
            low = middle;
        } else {
            high = middle;
        }
    }
    proof {
        lemma_cube_root_unique(value as nat, low as nat);
        lemma_largest_root(value as nat, low as nat);
    }
    low
}

/// No number in range has a larger root than the largest number.
proof fn lemma_largest_root(value: nat, root: nat)
    requires
        value <= u128::MAX,
        is_cube_root(value, root),
    ensures
        root <= LARGEST_ROOT,
{
    if root > LARGEST_ROOT {
        lemma_cube_grows(LARGEST_ROOT as nat, root);
        assert(0x700_0000_0000 * 0x700_0000_0000 * 0x700_0000_0000 > u128::MAX);
    }
}

/// The number whose cube root is the power of four thirds in sixteen fractional
/// bits, no larger than the largest number.
pub open spec fn radicand(magnitude: nat) -> nat {
    let fourth = magnitude * magnitude * magnitude * magnitude;
    if fourth >= 0x1_0000_0000_0000_0000_0000 {
        u128::MAX as nat
    } else {
        fourth * 0x1_0000_0000_0000
    }
}

/// The power of four thirds in sixteen fractional bits. From two to the power of
/// twenty on, all magnitudes have the same one.
pub open spec fn pow43(magnitude: nat) -> nat {
    bounded_root(radicand(magnitude))
}

proof fn lemma_fourth_power(magnitude: nat)
    ensures
        magnitude >= 0x10_0000 ==> magnitude * magnitude * magnitude * magnitude >= 0x1_0000_0000_0000_0000_0000,
        magnitude < 0x10_0000 ==> magnitude * magnitude * magnitude * magnitude < 0x1_0000_0000_0000_0000_0000,
        magnitude < 0x10_0000 ==> magnitude * magnitude < 0x100_0000_0000,
        magnitude < 0x10_0000 ==> magnitude * magnitude * magnitude < 0x1000_0000_0000_0000,
{
    let m = magnitude as int;
    let square = m * m;
    if m < 0x10_0000 {
        assert(square < 0x100_0000_0000) by (nonlinear_arith)
            requires
                0 <= m < 0x10_0000,
                square == m * m,
        ;
        assert(square * m < 0x1000_0000_0000_0000) by (nonlinear_arith)
            requires
                0 <= m < 0x10_0000,
                0 <= square < 0x100_0000_0000,
        ;
        let cube = square * m;
        assert(cube * m < 0x1_0000_0000_0000_0000_0000) by (nonlinear_arith)
            requires
                0 <= m < 0x10_0000,
                0 <= cube < 0x1000_0000_0000_0000,
        ;
        assert(square >= 0) by (nonlinear_arith)
            requires
                square == m * m,
        ;
        assert(square * m >= 0) by (nonlinear_arith)
            requires
                square >= 0,
                m >= 0,
        ;
    } else {
        assert(square >= 0x100_0000_0000) by (nonlinear_arith)
            requires
                m >= 0x10_0000,
                square == m * m,
        ;
        assert(square * m >= 0x1000_0000_0000_0000) by (nonlinear_arith)
            requires
                m >= 0x10_0000,
                square >= 0x100_0000_0000,
        ;
        let cube = square * m;
        assert(cube * m >= 0x1_0000_0000_0000_0000_0000) by (nonlinear_arith)
            requires
                m >= 0x10_0000,
                cube >= 0x1000_0000_0000_0000,
        ;
    }
}

/// The power of four thirds in sixteen fractional bits, rounded down.
pub fn pow43_u16_fractional(magnitude: u128) -> (power: u128)
    ensures
        power == pow43(magnitude as nat),
        power <= LARGEST_ROOT,
{
    proof {
        lemma_fourth_power(magnitude as nat);
    }
    let value: u128 = if magnitude >= 0x10_0000 {
        u128::MAX
    } else {
        magnitude * magnitude * magnitude * magnitude * 0x1_0000_0000_0000
    };
    integer_cuberoot_u128(value)
}

/// The gain of the part of a scale factor below an octave, in sixteen fractional
/// bits.
pub open spec fn remainder_gain(scalefactor: int) -> nat {
    let rest = scalefactor % 4;
    if rest == 0 {
        65_536
    } else if rest == 1 {
        77_936
    } else if rest == 2 {
        92_682
    } else {
        110_218
    }
}

/// A magnitude with the gain below an octave, in thirty-two fractional bits.
pub open spec fn gained(magnitude: nat, scalefactor: int) -> nat {
    pow43(magnitude) * remainder_gain(scalefactor)
}

/// The magnitude of a coefficient as a fraction of thirty-one bits: shifted left
/// it is the largest fraction at most, shifted right it is rounded.
pub open spec fn fraction_of(magnitude: nat, scalefactor: int) -> nat {
    let value = gained(magnitude, scalefactor);
    let shift = scalefactor / 4 - 1;
    if shift >= 0 {
        let bits = if shift > 127 {
            127
        } else {
            shift as nat
        };
        if value * pow2(bits) > 0x7fff_ffff {
            0x7fff_ffff
        } else {
            value * pow2(bits)
        }
    } else {
        let bits = if -shift > 127 {
            127
        } else {
            (-shift) as nat
        };
        (value + pow2((bits - 1) as nat)) / pow2(bits)
    }
}

/// A coefficient that was quantized, within the symmetric range.
pub open spec fn inverse_quantized(quantized: int, scalefactor: int) -> int {
    if quantized == 0 {
        0
    } else if quantized > 0 {
        saturated(fraction_of(quantized as nat, scalefactor) as int)
    } else {
        saturated(-(fraction_of((-quantized) as nat, scalefactor) as int))
    }
}

proof fn lemma_gained_range(magnitude: nat, scalefactor: int)
    requires
        magnitude >= 1,
    ensures
        0x1_0000_0000 <= gained(magnitude, scalefactor) < 0x1000_0000_0000_0000,
{
    let root = pow43(magnitude);
    let gain = remainder_gain(scalefactor);
    lemma_pow43_range(magnitude);
    assert(0x1_0000_0000 <= root * gain < 0x1000_0000_0000_0000) by (nonlinear_arith)
        requires
            0x1_0000 <= root <= 0x700_0000_0000,
            65_536 <= gain <= 110_218,
    ;
}

fn scalefactor_remainder_gain_q16(scalefactor: i16) -> (gain: u128)
    ensures
        gain == remainder_gain(scalefactor as int),
        65_536 <= gain <= 110_218,
{
    let rest: i32 = (scalefactor as i32 + 0x8000) % 4;
    if rest == 0 {
        65_536
    } else if rest == 1 {
        77_936
    } else if rest == 2 {
        92_682
    } else {
        110_218
    }
}

fn octave_of(scalefactor: i16) -> (octave: i32)
    ensures
        octave == scalefactor as int / 4,
        -8192 <= octave <= 8191,
{
    (scalefactor as i32 + 0x8000) / 4 - 0x2000
}

/// Shifting everything out gives zero.
proof fn lemma_shifted_out(value: nat, bits: nat)
    requires
        value < 0x1000_0000_0000_0000,
        bits >= 62,
    ensures
        (value + pow2((bits - 1) as nat)) / pow2(bits) == 0,
{
    lemma2_to64();
    lemma_pow2_adds(32, 28);
    lemma_pow2_unfold(bits);
    if bits - 1 > 60 {
        lemma_pow2_strictly_increases(60, (bits - 1) as nat);
    }
    lemma_basic_div((value + pow2((bits - 1) as nat)) as int, pow2(bits) as int);
}

fn shifted_fraction(value: u128, shift: i32, Ghost(magnitude): Ghost<nat>, Ghost(scalefactor): Ghost<int>) -> (fraction: i64)
    requires
        0x1_0000_0000 <= value < 0x1000_0000_0000_0000,
        value == gained(magnitude, scalefactor),
        shift == scalefactor / 4 - 1,
        -0x2_0000 <= shift <= 0x2_0000,
    ensures
        fraction == fraction_of(magnitude, scalefactor),
{
    if shift >= 0 {
        proof {
            let bits = if shift > 127 {
                127nat
            } else {
                shift as nat
            };
            lemma_pow2_pos(bits);
            let p = pow2(bits) as int;
            assert(value * p >= value) by (nonlinear_arith)
                requires
                    p >= 1,
                    value >= 0,
            ;
        }
        return 0x7fff_ffff;
    }
    let bits: u32 = if -shift > 127 {
        127
    } else {
        (-shift) as u32
    };
    if bits >= 62 {
        proof {
            lemma_shifted_out(value as nat, bits as nat);
        }
        return 0;
    }
    let half: i128 = power_of_two(bits - 1);
    let power: i128 = power_of_two(bits);
    proof {
        lemma2_to64();
        lemma_pow2_adds(32, 29);
        if bits < 61 {
            lemma_pow2_strictly_increases(bits as nat, 61);
        }
        if bits - 1 < 61 {
            lemma_pow2_strictly_increases((bits - 1) as nat, 61);
        }
    }
    let sum: i128 = value as i128 + half;
    let quotient: i128 = sum / power;
    proof {
        lemma_fundamental_div_mod(sum as int, power as int);
        assert(0 <= quotient <= sum) by (nonlinear_arith)
            requires
                sum == power * quotient + sum % power,
                0 <= sum % power,
                power >= 1,
                sum >= 0,
                quotient >= 0,
        ;
    }
    quotient as i64
}

/// Inverse quantizes a coefficient. Every coefficient has a value.
pub fn inverse_quantize_value_fixed_int(quantized: i32, scalefactor: i16) -> (value: Option<FixpDbl>)
    ensures
        value == Some(inverse_quantized(quantized as int, scalefactor as int) as i32),
        i32::MIN < inverse_quantized(quantized as int, scalefactor as int) <= i32::MAX,
{
    if quantized == 0 {
        return Some(0);
    }
    let magnitude: u128 = if quantized < 0 {
        (-(quantized as i64)) as u128
    } else {
        quantized as u128
    };
    let power: u128 = pow43_u16_fractional(magnitude);
    let gain: u128 = scalefactor_remainder_gain_q16(scalefactor);
    proof {
        lemma_gained_range(magnitude as nat, scalefactor as int);
        assert(power * gain < 0x1000_0000_0000_0000);
    }
    let scaled: u128 = power * gain;
    let shift: i32 = octave_of(scalefactor) - 1;
    let fraction: i64 = shifted_fraction(scaled, shift, Ghost(magnitude as nat), Ghost(scalefactor as int));
    let bounded: i32 = if fraction > 0x7fff_ffff {
        MAXVAL_DBL
    } else {
        fraction as i32
    };
    if quantized < 0 {
        Some(-bounded)
    } else {
        Some(bounded)
    }
}

/// A cube root exists.
proof fn lemma_cube_root_exists(value: nat, from: nat)
    requires
        from * from * from <= value,
    ensures
        is_cube_root(value, cube_root(value)),
    decreases value + 1 - from,
{
    let next = from + 1;
    if value < next * next * next {
        assert(is_cube_root(value, from));
    } else {
        assert(next <= next * next * next) by (nonlinear_arith)
            requires
                next >= 1,
        ;
        lemma_cube_root_exists(value, next);
    }
}

proof fn lemma_pow43_range(magnitude: nat)
    requires
        magnitude >= 1,
    ensures
        0x1_0000 <= pow43(magnitude) <= LARGEST_ROOT,
{
    let value = radicand(magnitude);
    let m = magnitude as int;
    assert(m * m * m * m >= 1) by (nonlinear_arith)
        requires
            m >= 1,
    ;
    lemma_radicand_grows(magnitude, magnitude);
    if value < u128::MAX {
        lemma_cube_root_exists(value, 0);
        let root = cube_root(value);
        lemma_largest_root(value, root);
        if root < 0x1_0000 {
            lemma_cube_grows(root + 1, 0x1_0000);
        }
    }
}

proof fn lemma_pow43_grows(low: nat, high: nat)
    requires
        low <= high,
    ensures
        pow43(low) <= pow43(high),
{
    let a = radicand(low);
    let b = radicand(high);
    lemma_radicand_grows(low, high);
    lemma_cube_root_exists(a, 0);
    lemma_cube_root_exists(b, 0);
    if b == u128::MAX {
        lemma_largest_root(a, cube_root(a));
    } else if cube_root(b) < cube_root(a) {
        lemma_cube_grows(cube_root(b) + 1, cube_root(a));
    }
}

/// Inverse quantizes a coefficient.
pub fn inverse_quantize_value_fixed(quantized: i32, scalefactor: i16) -> (value: FixpDbl)
    ensures
        value == inverse_quantized(quantized as int, scalefactor as int),
{
    match inverse_quantize_value_fixed_int(quantized, scalefactor) {
        Some(value) => value,
        None => 0,
    }
}

/// Inverse quantizes a coefficient.
pub fn inverse_quantize_value_fixed_bridge(quantized: i32, scalefactor: i16) -> (value: FixpDbl)
    ensures
        value == inverse_quantized(quantized as int, scalefactor as int),
{
    inverse_quantize_value_fixed(quantized, scalefactor)
}

/// The sign of a coefficient is the sign of its value.
pub proof fn lemma_inverse_is_odd(quantized: int, scalefactor: int)
    ensures
        inverse_quantized(-quantized, scalefactor) == -inverse_quantized(quantized, scalefactor),
{
}

proof fn lemma_radicand_grows(low: nat, high: nat)
    requires
        low <= high,
    ensures
        radicand(low) <= radicand(high),
        radicand(high) <= u128::MAX,
{
    let a = low as int;
    let b = high as int;
    lemma_cube_grows(low, high);
    let low_cube = a * a * a;
    let high_cube = b * b * b;
    assert(low_cube * a <= high_cube * b) by (nonlinear_arith)
        requires
            0 <= a <= b,
            0 <= low_cube <= high_cube,
    ;
    assert(low_cube >= 0) by (nonlinear_arith)
        requires
            low_cube == a * a * a,
            a >= 0,
    ;
}

/// How far a fraction is shifted right at a scale factor, if it is.
spec fn right_shift(scalefactor: int) -> nat {
    if 1 - scalefactor / 4 > 127 {
        127
    } else {
        (1 - scalefactor / 4) as nat
    }
}

/// A larger product never makes a smaller fraction at the same octave.
proof fn lemma_fraction_grows(low: nat, low_factor: int, high: nat, high_factor: int)
    requires
        gained(low, low_factor) <= gained(high, high_factor),
        low_factor / 4 == high_factor / 4,
    ensures
        fraction_of(low, low_factor) <= fraction_of(high, high_factor),
{
    let x = gained(low, low_factor) as int;
    let y = gained(high, high_factor) as int;
    let shift = low_factor / 4 - 1;
    if shift >= 0 {
        let bits = if shift > 127 {
            127
        } else {
            shift as nat
        };
        let p = pow2(bits) as int;
        lemma_pow2_pos(bits);
        assert(x * p <= y * p) by (nonlinear_arith)
            requires
                x <= y,
                p > 0,
        ;
    } else {
        let bits = right_shift(low_factor);
        lemma_pow2_pos(bits);
        lemma_pow2_pos((bits - 1) as nat);
        lemma_div_is_ordered(
            x + pow2((bits - 1) as nat),
            y + pow2((bits - 1) as nat),
            pow2(bits) as int,
        );
    }
}

/// Every magnitude from the first octave on has the largest fraction.
proof fn lemma_fraction_at_top(magnitude: nat, scalefactor: int)
    requires
        magnitude >= 1,
        scalefactor >= 4,
    ensures
        fraction_of(magnitude, scalefactor) == 0x7fff_ffff,
{
    let shift = scalefactor / 4 - 1;
    let bits = if shift > 127 {
        127
    } else {
        shift as nat
    };
    let value = gained(magnitude, scalefactor) as int;
    let p = pow2(bits) as int;
    lemma_gained_range(magnitude, scalefactor);
    lemma_pow2_pos(bits);
    assert(value * p >= value) by (nonlinear_arith)
        requires
            p >= 1,
            value >= 0,
    ;
}

/// One step of the scale factor never makes a value smaller.
proof fn lemma_scale_step(magnitude: nat, scalefactor: int)
    requires
        magnitude >= 1,
    ensures
        inverse_quantized(magnitude as int, scalefactor) <= inverse_quantized(magnitude as int, scalefactor + 1),
{
    let power = pow43(magnitude) as int;
    if scalefactor % 4 < 3 {
        let low = remainder_gain(scalefactor) as int;
        let high = remainder_gain(scalefactor + 1) as int;
        assert(power * low <= power * high) by (nonlinear_arith)
            requires
                power >= 0,
                low <= high,
        ;
        lemma_fraction_grows(magnitude, scalefactor, magnitude, scalefactor + 1);
    } else if scalefactor >= 0 {
        lemma_fraction_at_top(magnitude, scalefactor + 1);
    } else {
        let x = gained(magnitude, scalefactor) as int;
        let y = gained(magnitude, scalefactor + 1) as int;
        lemma_gained_range(magnitude, scalefactor);
        let bits = right_shift(scalefactor);
        if bits >= 62 {
            lemma_shifted_out(x as nat, bits);
            lemma_pow2_pos(right_shift(scalefactor + 1));
        } else {
            assert(right_shift(scalefactor + 1) == bits - 1);
            assert(x == power * 110_218 && y == power * 65_536);
            let half = pow2((bits - 1) as nat) as int;
            let quarter = pow2((bits - 2) as nat) as int;
            lemma_pow2_unfold(bits);
            lemma_pow2_unfold((bits - 1) as nat);
            lemma_pow2_pos((bits - 1) as nat);
            lemma_div_is_ordered(x + half, 2 * (y + quarter), 2 * half);
            lemma_halved_quotient(y + quarter, half);
        }
    }
}

/// Doubling both sides of a quotient leaves it as it is.
proof fn lemma_halved_quotient(value: int, divisor: int)
    requires
        value >= 0,
        divisor > 0,
    ensures
        (2 * value) / (2 * divisor) == value / divisor,
{
    vstd::arithmetic::div_mod::lemma_truncate_middle(value, divisor, 2);
    vstd::arithmetic::div_mod::lemma_div_denominator(2 * value, 2, divisor);
}

/// A larger scale factor never makes a value smaller.
pub proof fn lemma_inverse_grows_with_scale(magnitude: nat, low: int, high: int)
    requires
        low <= high,
    ensures
        inverse_quantized(magnitude as int, low) <= inverse_quantized(magnitude as int, high),
    decreases high - low,
{
    if low < high && magnitude > 0 {
        lemma_inverse_grows_with_scale(magnitude, low, high - 1);
        lemma_scale_step(magnitude, high - 1);
    }
}

/// A larger magnitude never has a smaller value.
pub proof fn lemma_inverse_grows(low: nat, high: nat, scalefactor: int)
    requires
        low <= high,
    ensures
        0 <= inverse_quantized(low as int, scalefactor) <= inverse_quantized(high as int, scalefactor) <= 0x7fff_ffff,
{
    if 0 < low {
        lemma_pow43_grows(low, high);
        let a = pow43(low);
        let b = pow43(high);
        let gain = remainder_gain(scalefactor);
        assert(a * gain <= b * gain) by (nonlinear_arith)
            requires
                a <= b,
                gain >= 0,
        ;
        lemma_fraction_grows(low, scalefactor, high, scalefactor);
    }
}

/// Values grow with the magnitude and with the scale factor together, and lie
/// between silence and the largest fraction.
pub proof fn lemma_inverse_monotone(low: nat, high: nat, low_factor: int, high_factor: int)
    requires
        low <= high,
        low_factor <= high_factor,
    ensures
        0 <= inverse_quantized(low as int, low_factor) <= inverse_quantized(high as int, high_factor) <= 0x7fff_ffff,
{
    lemma_inverse_grows(low, high, low_factor);
    lemma_inverse_grows_with_scale(high, low_factor, high_factor);
}

/// The cube of a power of four thirds is the fourth power of the magnitude, up to the last of
/// its sixteen fractional bits.
pub proof fn lemma_power_of_four_thirds(magnitude: nat)
    requires
        magnitude < 0x10_0000,
    ensures
        ({
            let power = pow43(magnitude);
            let fourth = magnitude * magnitude * magnitude * magnitude * (65_536 * 65_536 * 65_536);
            power * power * power <= fourth < (power + 1) * (power + 1) * (power + 1)
        }),
{
    lemma_fourth_power(magnitude);
    let fourth = magnitude * magnitude * magnitude * magnitude;
    lemma_cube_root_exists(radicand(magnitude), 0);
    assert(radicand(magnitude) == fourth * 0x1_0000_0000_0000);
    assert(radicand(magnitude) < u128::MAX);
}

/// The gains below an octave are the four quarter steps of one: two steps are the square root
/// of two, one and three of them a quarter step to either side, up to rounding.
pub proof fn lemma_gains_are_quarter_steps(scalefactor: int)
    requires
        scalefactor % 4 == 0,
    ensures
        ({
            let one = remainder_gain(scalefactor + 1) as int;
            let two = remainder_gain(scalefactor + 2) as int;
            let three = remainder_gain(scalefactor + 3) as int;
            &&& remainder_gain(scalefactor) == 65_536
            &&& 2 * 65_536 * 65_536 - 2 * two < two * two < 2 * 65_536 * 65_536 + 2 * two
            &&& 65_536 * two - 2 * one < one * one < 65_536 * two + 2 * one
            &&& 65_536 * 2 * two - 2 * three < three * three < 65_536 * 2 * two + 2 * three
        }),
{
}

/// A value that is shifted right is the nearest fraction: one bit is rounded away for each octave
/// that the scale factor lies below eight.
pub proof fn lemma_fraction_nearest(magnitude: nat, scalefactor: int)
    requires
        -500 <= scalefactor < 4,
    ensures
        ({
            let shift = pow2((1 - scalefactor / 4) as nat);
            let value = pow43(magnitude) * remainder_gain(scalefactor);
            2 * value - shift < 2 * fraction_of(magnitude, scalefactor) * shift <= 2 * value + shift
        }),
{
    let bits = (1 - scalefactor / 4) as nat;
    let shift = pow2(bits) as int;
    let half = pow2((bits - 1) as nat) as int;
    let value = gained(magnitude, scalefactor) as int;
    lemma_pow2_unfold(bits);
    lemma_pow2_pos(bits);
    assert(shift == 2 * half);
    let fraction = (value + half) / shift;
    lemma_fundamental_div_mod(value + half, shift);
    assert(fraction_of(magnitude, scalefactor) == fraction);
    assert(2 * fraction * shift == 2 * (shift * fraction)) by (nonlinear_arith);
}

} // verus!
