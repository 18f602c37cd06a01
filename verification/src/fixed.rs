//! Fixed-point primitives: saturation, scaling and headroom.

use vstd::arithmetic::div_mod::{lemma_div_is_ordered, lemma_fundamental_div_mod, lemma_fundamental_div_mod_converse};
use vstd::arithmetic::power2::{
    lemma2_to64, lemma2_to64_rest, lemma_pow2_adds, lemma_pow2_pos, lemma_pow2_strictly_increases, lemma_pow2_unfold, pow2,
};
use vstd::prelude::*;

verus! {

pub type FixpDbl = i32;

pub type FixpSgl = i16;

pub type Pcm16 = i16;

pub const FRACT_BITS: i32 = 16;

pub const DFRACT_BITS: i32 = 32;

pub const SAMPLE_BITS: i32 = 16;

pub const MAXVAL_DBL: FixpDbl = 0x7fff_ffff;

/// The lowest saturated value: the range is symmetric.
pub const MINVAL_DBL_PLUS_ONE: FixpDbl = -0x7fff_ffff;

pub const MAXVAL_SGL: FixpSgl = 0x7fff;

pub const MINVAL_SGL: FixpSgl = -0x8000;

// ---------------------------------------------------------------------------
// Powers of two and shifts
// ---------------------------------------------------------------------------

/// Two to the power `bits`.
pub fn power_of_two(bits: u32) -> (power: i128)
    requires
        bits <= 126,
    ensures
        power == pow2(bits as nat),
        power >= 1,
{
    let mut power: i128 = 1;
    let mut done: u32 = 0;
    proof {
        lemma2_to64();
    }
    while done < bits
        invariant
            done <= bits <= 126,
            power == pow2(done as nat),
            power >= 1,
        decreases bits - done,
    {
        proof {
            lemma_pow2_unfold((done + 1) as nat);
            lemma_pow2_limit((done + 1) as nat);
        }
        power = power * 2;
        done = done + 1;
    }
    power
}

/// A power of two of at most 126 bits fits.
proof fn lemma_pow2_limit(bits: nat)
    requires
        bits <= 126,
    ensures
        pow2(bits) <= 0x4000_0000_0000_0000_0000_0000_0000_0000,
{
    lemma2_to64();
    lemma_pow2_adds(32, 30);
    lemma_pow2_adds(62, 64);
    assert(pow2(62) == 0x4000_0000_0000_0000);
    assert(0x4000_0000_0000_0000 * 0x1_0000_0000_0000_0000 == 0x4000_0000_0000_0000_0000_0000_0000_0000);
    if bits < 126 {
        lemma_pow2_strictly_increases(bits, 126);
    }
}

/// The quotient by a positive divisor, rounded down.
pub(crate) fn floor_quotient(value: i128, divisor: i128) -> (quotient: i128)
    requires
        divisor > 0,
        -i128::MAX <= value - divisor,
    ensures
        quotient == value as int / divisor as int,
{
    if value >= 0 {
        value / divisor
    } else {
        let magnitude: i128 = -value;
        let quotient: i128 = (magnitude + (divisor - 1)) / divisor;
        proof {
            let q = quotient as int;
            let d = divisor as int;
            lemma_fundamental_div_mod((magnitude + (divisor - 1)) as int, d);
            let r = (magnitude + (divisor - 1)) % d;
            let left = d - 1 - r;
            assert(value == -q * d + left) by (nonlinear_arith)
                requires
                    -value + (d - 1) == d * q + r,
                    left == d - 1 - r,
            ;
            lemma_fundamental_div_mod_converse(value as int, d, -q, left);
        }
        -quotient
    }
}

/// The lowest 32 bits of a number, as a signed number.
pub open spec fn wrapped(value: int) -> int {
    (value + 0x8000_0000) % 0x1_0000_0000 - 0x8000_0000
}

/// Keeps the lowest 32 bits.
pub(crate) fn wrap(value: i128) -> (low: i32)
    requires
        -0x10_0000_0000_0000_0000 <= value <= 0x10_0000_0000_0000_0000,
    ensures
        low == wrapped(value as int),
{
    let offset: i128 = 0x10_0000_0000_0000_0000 + 0x8000_0000;
    let rest: i128 = (value + offset) % 0x1_0000_0000;
    (rest - 0x8000_0000) as i32
}

/// A value within the symmetric range.
pub open spec fn saturated(value: int) -> int {
    if value > 0x7fff_ffff {
        0x7fff_ffff
    } else if value < -0x7fff_ffff {
        -0x7fff_ffff
    } else {
        value
    }
}

/// Brings a value into the symmetric range.
pub fn clamp_i64_to_fixp_dbl_fractional(value: i64) -> (result: FixpDbl)
    ensures
        result == saturated(value as int),
{
    if value > 0x7fff_ffff {
        MAXVAL_DBL
    } else if value < -0x7fff_ffff {
        MINVAL_DBL_PLUS_ONE
    } else {
        value as i32
    }
}

/// The number of bits by which a scale factor shifts.
pub open spec fn shift_bits(scalefactor: int) -> nat {
    let magnitude = if scalefactor < 0 {
        -scalefactor
    } else {
        scalefactor
    };
    if magnitude > 31 {
        31
    } else {
        magnitude as nat
    }
}

fn shift_of(scalefactor: i32) -> (bits: u32)
    requires
        scalefactor > i32::MIN,
    ensures
        bits == shift_bits(scalefactor as int),
        bits <= 31,
{
    let magnitude: i32 = if scalefactor < 0 {
        -scalefactor
    } else {
        scalefactor
    };
    if magnitude > 31 {
        31
    } else {
        magnitude as u32
    }
}

/// A value shifted by a scale factor, wrapping around.
pub open spec fn scaled(value: int, scalefactor: int) -> int {
    if scalefactor >= 0 {
        wrapped(value * pow2(shift_bits(scalefactor)))
    } else {
        value / pow2(shift_bits(scalefactor)) as int
    }
}

proof fn lemma_shift_bounds(value: i32, bits: nat)
    requires
        bits <= 31,
    ensures
        1 <= pow2(bits) <= 0x8000_0000,
        -0x4000_0000_0000_0000 <= value * pow2(bits) <= 0x4000_0000_0000_0000,
        i32::MIN <= value as int / pow2(bits) as int <= i32::MAX,
{
    lemma2_to64();
    lemma_pow2_pos(bits);
    if bits < 31 {
        lemma_pow2_strictly_increases(bits, 31);
    }
    let p = pow2(bits) as int;
    let v = value as int;
    assert(-0x4000_0000_0000_0000 <= v * p <= 0x4000_0000_0000_0000) by (nonlinear_arith)
        requires
            1 <= p <= 0x8000_0000,
            -0x8000_0000 <= v <= 0x7fff_ffff,
    ;
    lemma_fundamental_div_mod(v, p);
    let q = v / p;
    assert(-0x8000_0000 <= q <= 0x7fff_ffff) by (nonlinear_arith)
        requires
            v == p * q + v % p,
            0 <= v % p < p,
            1 <= p,
            -0x8000_0000 <= v <= 0x7fff_ffff,
    ;
}

/// Shifts a value left, wrapping around, or right where the scale factor is
/// negative.
pub fn scale_value(value: FixpDbl, scalefactor: i32) -> (result: FixpDbl)
    requires
        scalefactor > i32::MIN,
    ensures
        result == scaled(value as int, scalefactor as int),
{
    let bits: u32 = shift_of(scalefactor);
    let power: i128 = power_of_two(bits);
    proof {
        lemma_shift_bounds(value, bits as nat);
    }
    if scalefactor >= 0 {
        wrap(value as i128 * power)
    } else {
        floor_quotient(value as i128, power) as i32
    }
}

/// A value shifted by a scale factor, saturated. Shifting everything out gives
/// zero.
pub open spec fn scaled_saturated(value: int, scalefactor: int) -> int {
    if scalefactor >= 0 {
        saturated(value * pow2(shift_bits(scalefactor)))
    } else if shift_bits(scalefactor) >= 31 {
        0
    } else {
        saturated(value / pow2(shift_bits(scalefactor)) as int)
    }
}

/// Shifts a value left or right and saturates it.
pub fn scale_value_saturate(value: FixpDbl, scalefactor: i32) -> (result: FixpDbl)
    requires
        scalefactor > i32::MIN,
    ensures
        result == scaled_saturated(value as int, scalefactor as int),
{
    let bits: u32 = shift_of(scalefactor);
    let power: i128 = power_of_two(bits);
    proof {
        lemma_shift_bounds(value, bits as nat);
    }
    if scalefactor >= 0 {
        clamp_i64_to_fixp_dbl_fractional((value as i128 * power) as i64)
    } else if bits >= 31 {
        0
    } else {
        clamp_i64_to_fixp_dbl_fractional(floor_quotient(value as i128, power) as i64)
    }
}

/// Shifts all values left, wrapping around, or right.
pub fn scale_values(values: &mut [FixpDbl], scalefactor: i32)
    requires
        scalefactor > i32::MIN,
    ensures
        final(values)@.len() == old(values)@.len(),
        forall|i: int|
            0 <= i < old(values)@.len() ==> #[trigger] final(values)@[i] == (if scalefactor == 0 {
                old(values)@[i] as int
            } else {
                scaled(old(values)@[i] as int, scalefactor as int)
            }),
{
    if scalefactor == 0 {
        return;
    }
    let mut index: usize = 0;
    while index < values.len()
        invariant
            scalefactor > i32::MIN,
            index <= values@.len(),
            values@.len() == old(values)@.len(),
            forall|i: int|
                0 <= i < index ==> #[trigger] values@[i] == scaled(old(values)@[i] as int, scalefactor as int),
            forall|i: int| index <= i < values@.len() ==> #[trigger] values@[i] == old(values)@[i],
        decreases values@.len() - index,
    {
        values[index] = scale_value(values[index], scalefactor);
        index = index + 1;
    }
}

/// Shifts all values left or right and saturates them.
pub fn scale_values_saturate(values: &mut [FixpDbl], scalefactor: i32)
    requires
        scalefactor > i32::MIN,
    ensures
        final(values)@.len() == old(values)@.len(),
        forall|i: int|
            0 <= i < old(values)@.len() ==> #[trigger] final(values)@[i] == (if scalefactor == 0 {
                old(values)@[i] as int
            } else {
                scaled_saturated(old(values)@[i] as int, scalefactor as int)
            }),
{
    if scalefactor == 0 {
        return;
    }
    let mut index: usize = 0;
    while index < values.len()
        invariant
            scalefactor > i32::MIN,
            index <= values@.len(),
            values@.len() == old(values)@.len(),
            forall|i: int|
                0 <= i < index ==> #[trigger] values@[i] == scaled_saturated(old(values)@[i] as int, scalefactor as int),
            forall|i: int| index <= i < values@.len() ==> #[trigger] values@[i] == old(values)@[i],
        decreases values@.len() - index,
    {
        values[index] = scale_value_saturate(values[index], scalefactor);
        index = index + 1;
    }
}

/// Copies values, shifted left or right and saturated.
pub fn scale_values_saturate_from(dst: &mut [FixpDbl], src: &[FixpDbl], scalefactor: i32)
    requires
        scalefactor > i32::MIN,
        old(dst)@.len() == src@.len(),
    ensures
        final(dst)@.len() == src@.len(),
        forall|i: int|
            0 <= i < src@.len() ==> #[trigger] final(dst)@[i] == scaled_saturated(src@[i] as int, scalefactor as int),
{
    let mut index: usize = 0;
    while index < src.len()
        invariant
            scalefactor > i32::MIN,
            index <= src@.len(),
            dst@.len() == src@.len(),
            forall|i: int|
                0 <= i < index ==> #[trigger] dst@[i] == scaled_saturated(src@[i] as int, scalefactor as int),
        decreases src@.len() - index,
    {
        dst[index] = scale_value_saturate(src[index], scalefactor);
        index = index + 1;
    }
}

/// Widens a value.
pub fn sgl_to_dbl(value: FixpSgl) -> (result: FixpDbl)
    ensures
        result == value * 0x1_0000,
{
    value as i32 * 0x1_0000
}

/// Narrows a value, rounding down.
pub fn dbl_to_sgl(value: FixpDbl) -> (result: FixpSgl)
    ensures
        result == value as int / 0x1_0000,
{
    floor_quotient(value as i128, 0x1_0000) as i16
}

/// Widens a sample.
pub fn pcm16_to_dbl(value: Pcm16) -> (result: FixpDbl)
    ensures
        result == value * 0x1_0000,
{
    sgl_to_dbl(value)
}

/// Narrows a value to a sample, rounding down.
pub fn dbl_to_pcm16(value: FixpDbl) -> (result: Pcm16)
    ensures
        result == value as int / 0x1_0000,
{
    dbl_to_sgl(value)
}

/// A narrow value scaled in the wide range.
pub open spec fn narrow_scaled(value: int, scalefactor: int) -> int {
    scaled_saturated(value * 0x1_0000, scalefactor) / 0x1_0000
}

/// Shifts a narrow value left or right and saturates it.
pub fn scale_value_sgl_saturate(value: FixpSgl, scalefactor: i32) -> (result: FixpSgl)
    requires
        scalefactor > i32::MIN,
    ensures
        result == narrow_scaled(value as int, scalefactor as int),
{
    dbl_to_sgl(scale_value_saturate(sgl_to_dbl(value), scalefactor))
}

/// Shifts all narrow values left or right and saturates them.
pub fn scale_values_sgl_saturate(values: &mut [FixpSgl], scalefactor: i32)
    requires
        scalefactor > i32::MIN,
    ensures
        final(values)@.len() == old(values)@.len(),
        forall|i: int|
            0 <= i < old(values)@.len() ==> #[trigger] final(values)@[i] == (if scalefactor == 0 {
                old(values)@[i] as int
            } else {
                narrow_scaled(old(values)@[i] as int, scalefactor as int)
            }),
{
    if scalefactor == 0 {
        return;
    }
    let mut index: usize = 0;
    while index < values.len()
        invariant
            scalefactor > i32::MIN,
            index <= values@.len(),
            values@.len() == old(values)@.len(),
            forall|i: int|
                0 <= i < index ==> #[trigger] values@[i] == narrow_scaled(old(values)@[i] as int, scalefactor as int),
            forall|i: int| index <= i < values@.len() ==> #[trigger] values@[i] == old(values)@[i],
        decreases values@.len() - index,
    {
        values[index] = scale_value_sgl_saturate(values[index], scalefactor);
        index = index + 1;
    }
}

/// Copies narrow values, shifted left or right and saturated.
pub fn scale_values_sgl_saturate_from(dst: &mut [FixpSgl], src: &[FixpSgl], scalefactor: i32)
    requires
        scalefactor > i32::MIN,
        old(dst)@.len() == src@.len(),
    ensures
        final(dst)@.len() == src@.len(),
        forall|i: int|
            0 <= i < src@.len() ==> #[trigger] final(dst)@[i] == narrow_scaled(src@[i] as int, scalefactor as int),
{
    let mut index: usize = 0;
    while index < src.len()
        invariant
            scalefactor > i32::MIN,
            index <= src@.len(),
            dst@.len() == src@.len(),
            forall|i: int| 0 <= i < index ==> #[trigger] dst@[i] == narrow_scaled(src@[i] as int, scalefactor as int),
        decreases src@.len() - index,
    {
        dst[index] = scale_value_sgl_saturate(src[index], scalefactor);
        index = index + 1;
    }
}

/// Turns values into samples, shifted left or right and saturated.
pub fn scale_values_pcm16_from_dbl(dst: &mut [Pcm16], src: &[FixpDbl], scalefactor: i32)
    requires
        scalefactor > i32::MIN,
        old(dst)@.len() == src@.len(),
    ensures
        final(dst)@.len() == src@.len(),
        forall|i: int|
            0 <= i < src@.len() ==> #[trigger] final(dst)@[i] == scaled_saturated(src@[i] as int, scalefactor as int)
                / 0x1_0000,
{
    let mut index: usize = 0;
    while index < src.len()
        invariant
            scalefactor > i32::MIN,
            index <= src@.len(),
            dst@.len() == src@.len(),
            forall|i: int|
                0 <= i < index ==> #[trigger] dst@[i] == scaled_saturated(src@[i] as int, scalefactor as int) / 0x1_0000,
        decreases src@.len() - index,
    {
        dst[index] = dbl_to_pcm16(scale_value_saturate(src[index], scalefactor));
        index = index + 1;
    }
}

// ---------------------------------------------------------------------------
// Headroom
// ---------------------------------------------------------------------------

/// The number of binary digits of a number.
pub open spec fn bit_length(value: nat) -> nat
    decreases value,
{
    if value == 0 {
        0
    } else {
        1 + bit_length(value / 2)
    }
}

/// A number of `n` binary digits lies between two powers of two.
pub proof fn lemma_bit_length(value: nat)
    ensures
        value < pow2(bit_length(value)),
        value > 0 ==> pow2((bit_length(value) - 1) as nat) <= value,
    decreases value,
{
    lemma2_to64();
    if value > 0 {
        lemma_bit_length(value / 2);
        lemma_pow2_unfold(bit_length(value));
        if value / 2 > 0 {
            lemma_pow2_unfold((bit_length(value) - 1) as nat);
        }
    }
}

proof fn lemma_bit_length_below(value: nat, bits: nat)
    requires
        value < pow2(bits),
    ensures
        bit_length(value) <= bits,
{
    lemma_bit_length(value);
    if bit_length(value) > bits {
        let short = (bit_length(value) - 1) as nat;
        if bits < short {
            lemma_pow2_strictly_increases(bits, short);
        }
    }
}

fn binary_digits(value: u32) -> (digits: i32)
    ensures
        digits == bit_length(value as nat),
        0 <= digits <= 32,
{
    proof {
        lemma2_to64();
        lemma_bit_length_below(value as nat, 32);
    }
    let mut rest: u32 = value;
    let mut digits: i32 = 0;
    while rest > 0
        invariant
            digits + bit_length(rest as nat) == bit_length(value as nat),
            bit_length(value as nat) <= 32,
            0 <= digits,
        decreases rest,
    {
        rest = rest / 2;
        digits = digits + 1;
    }
    digits
}

/// How far a value lies from zero, negative values one less.
pub open spec fn distance(value: int) -> nat {
    if value >= 0 {
        value as nat
    } else {
        (-value - 1) as nat
    }
}

/// The largest distance of the first `count` values.
pub open spec fn largest_distance(values: Seq<int>, count: int) -> nat
    decreases count,
{
    if count <= 0 {
        0
    } else {
        let before = largest_distance(values, count - 1);
        let here = distance(values[count - 1]);
        if here > before {
            here
        } else {
            before
        }
    }
}

/// Wide values as numbers.
pub open spec fn wide_numbers(values: Seq<i32>) -> Seq<int> {
    values.map_values(|value: i32| value as int)
}

/// Narrow values as numbers.
pub open spec fn narrow_numbers(values: Seq<i16>) -> Seq<int> {
    values.map_values(|value: i16| value as int)
}

fn distance_of(value: i32) -> (distance_value: u32)
    ensures
        distance_value == distance(value as int),
        distance_value <= 0x7fff_ffff,
{
    if value >= 0 {
        value as u32
    } else {
        (-(value as i64) - 1) as u32
    }
}

/// The number of zero bits above a value.
pub fn fixnormz_d(value: FixpDbl) -> (count: i32)
    ensures
        count == if value < 0 {
            0
        } else {
            32 - bit_length(value as nat)
        },
{
    if value < 0 {
        0
    } else {
        DFRACT_BITS - binary_digits(value as u32)
    }
}

/// The number of zero bits above a narrow value.
pub fn fixnormz_s(value: FixpSgl) -> (count: i32)
    ensures
        count == if value < 0 {
            0
        } else {
            16 - bit_length(value as nat)
        },
{
    if value < 0 {
        0
    } else {
        FRACT_BITS - binary_digits(value as u32)
    }
}

/// The number of bits by which all values can be shifted left.
pub fn get_scalefactor_dbl(values: &[FixpDbl]) -> (headroom: i32)
    ensures
        headroom == 31 - bit_length(largest_distance(wide_numbers(values@), values@.len() as int)),
        0 <= headroom <= 31,
{
    let mut largest: u32 = 0;
    let mut index: usize = 0;
    while index < values.len()
        invariant
            index <= values@.len(),
            largest == largest_distance(wide_numbers(values@), index as int),
            largest <= 0x7fff_ffff,
        decreases values@.len() - index,
    {
        let here: u32 = distance_of(values[index]);
        assert(wide_numbers(values@)[index as int] == values@[index as int]);
        if here > largest {
            largest = here;
        }
        index = index + 1;
    }
    proof {
        lemma2_to64();
        lemma_bit_length_below(largest as nat, 31);
    }
    31 - binary_digits(largest)
}

/// The number of bits by which all narrow values can be shifted left.
pub fn get_scalefactor_sgl(values: &[FixpSgl]) -> (headroom: i32)
    ensures
        headroom == 15 - bit_length(largest_distance(narrow_numbers(values@), values@.len() as int)),
        0 <= headroom <= 15,
{
    let mut largest: u32 = 0;
    let mut index: usize = 0;
    while index < values.len()
        invariant
            index <= values@.len(),
            largest == largest_distance(narrow_numbers(values@), index as int),
            largest <= 0x7fff,
        decreases values@.len() - index,
    {
        let here: u32 = distance_of(values[index] as i32);
        assert(narrow_numbers(values@)[index as int] == values@[index as int]);
        if here > largest {
            largest = here;
        }
        index = index + 1;
    }
    proof {
        lemma2_to64();
        lemma_bit_length_below(largest as nat, 15);
    }
    15 - binary_digits(largest)
}

/// Every `stride`-th value, `len` of them.
pub open spec fn strided(values: Seq<i16>, len: nat, stride: int) -> Seq<int> {
    Seq::new(len, |i: int| values[i * stride] as int)
}

/// The number of bits by which `len` samples, `stride` apart, can be shifted
/// left.
pub fn get_scalefactor_pcm_stride(values: &[Pcm16], len: usize, stride: usize) -> (headroom: i32)
    requires
        len > 0 ==> stride > 0 && (len - 1) * stride < values@.len(),
    ensures
        len == 0 ==> headroom == 31,
        len > 0 ==> headroom == 15 - bit_length(
            largest_distance(strided(values@, len as nat, stride as int), len as int),
        ) && 0 <= headroom <= 15,
{
    if len == 0 {
        return 31;
    }
    let ghost samples = strided(values@, len as nat, stride as int);
    let mut largest: u32 = 0;
    let mut index: usize = 0;
    let mut done: usize = 0;
    assert(0 * stride == 0) by (nonlinear_arith);
    while done < len
        invariant
            done <= len,
            (len - 1) * stride < values@.len(),
            stride > 0,
            samples == strided(values@, len as nat, stride as int),
            done < len ==> index == done * stride,
            largest == largest_distance(samples, done as int),
            largest <= 0x7fff,
        decreases len - done,
    {
        assert(done * stride <= (len - 1) * stride) by (nonlinear_arith)
            requires
                done <= len - 1,
        ;
        let here: u32 = distance_of(values[index] as i32);
        assert(samples[done as int] == values@[index as int]);
        if here > largest {
            largest = here;
        }
        done = done + 1;
        if done < len {
            proof {
                assert(done * stride <= (len - 1) * stride) by (nonlinear_arith)
                    requires
                        done <= len - 1,
                ;
                assert((done - 1) * stride + stride == done * stride) by (nonlinear_arith);
                assert(values@.len() == values.len());
            }
            index = index + stride;
        }
    }
    proof {
        lemma2_to64();
        lemma_bit_length_below(largest as nat, 15);
    }
    15 - binary_digits(largest)
}

// ---------------------------------------------------------------------------
// Arithmetic
// ---------------------------------------------------------------------------

/// A sum within the symmetric range.
pub fn saturating_add_dbl(lhs: FixpDbl, rhs: FixpDbl) -> (result: FixpDbl)
    ensures
        result == saturated(lhs + rhs),
{
    clamp_i64_to_fixp_dbl_fractional(lhs as i64 + rhs as i64)
}

/// A difference within the symmetric range.
pub fn saturating_sub_dbl(lhs: FixpDbl, rhs: FixpDbl) -> (result: FixpDbl)
    ensures
        result == saturated(lhs - rhs),
{
    clamp_i64_to_fixp_dbl_fractional(lhs as i64 - rhs as i64)
}

/// A product of two fractions, rounded down.
pub open spec fn fraction_product(lhs: int, rhs: int) -> int {
    (lhs * rhs) / 0x8000_0000
}

proof fn lemma_product_range(lhs: i32, rhs: i32)
    ensures
        -0x4000_0000_0000_0000 <= lhs * rhs <= 0x4000_0000_0000_0000,
        -0x8000_0000 <= fraction_product(lhs as int, rhs as int) <= 0x8000_0000,
{
    assert(-0x4000_0000_0000_0000 <= lhs * rhs <= 0x4000_0000_0000_0000) by (nonlinear_arith)
        requires
            -0x8000_0000 <= lhs <= 0x7fff_ffff,
            -0x8000_0000 <= rhs <= 0x7fff_ffff,
    ;
}

/// A product of two fractions before saturation, rounded down.
pub(crate) fn wide_fraction_product(lhs: FixpDbl, rhs: FixpDbl) -> (product: i64)
    ensures
        product == fraction_product(lhs as int, rhs as int),
        -0x8000_0000 <= product <= 0x8000_0000,
{
    proof {
        lemma_product_range(lhs, rhs);
    }
    floor_quotient(lhs as i128 * rhs as i128, 0x8000_0000) as i64
}

/// The product of two fractions within the symmetric range.
pub fn mul_q31(lhs: FixpDbl, rhs: FixpDbl) -> (result: FixpDbl)
    ensures
        result == saturated(fraction_product(lhs as int, rhs as int)),
{
    clamp_i64_to_fixp_dbl_fractional(wide_fraction_product(lhs, rhs))
}

/// A value divided by two to the power `bits`, rounded to the nearest, halves
/// away from zero.
pub open spec fn rounded(value: int, bits: nat) -> int {
    if bits == 0 {
        value
    } else if value >= 0 {
        (value + pow2((bits - 1) as nat)) / pow2(bits) as int
    } else {
        -((-value + pow2((bits - 1) as nat)) / pow2(bits) as int)
    }
}

/// Divides by two to the power `bits` and rounds to the nearest, halves away
/// from zero.
pub fn round_shift_i128(value: i128, bits: u32) -> (result: i128)
    requires
        bits <= 127,
        bits > 0 ==> -i128::MAX <= value - pow2((bits - 1) as nat) && value + pow2((bits - 1) as nat) <= i128::MAX,
    ensures
        result == rounded(value as int, bits as nat),
{
    if bits == 0 {
        return value;
    }
    let half: i128 = power_of_two(bits - 1);
    if bits == 127 {
        proof {
            let sum = if value >= 0 {
                value + half
            } else {
                -value + half
            };
            lemma_pow2_unfold(127);
            assert(half == 0x4000_0000_0000_0000_0000_0000_0000_0000) by {
                lemma_pow2_adds(63, 63);
                lemma2_to64();
                lemma2_to64_rest();
            }
            assert(0 <= sum < pow2(127));
            vstd::arithmetic::div_mod::lemma_basic_div(sum as int, pow2(127) as int);
        }
        return 0;
    }
    let power: i128 = power_of_two(bits);
    if value >= 0 {
        (value + half) / power
    } else {
        let quotient: i128 = (-value + half) / power;
        proof {
            lemma_div_is_ordered(0, -value + half, power as int);
        }
        -quotient
    }
}

/// A value within the range of 32 bits.
pub open spec fn clamped(value: int) -> int {
    if value < i32::MIN {
        i32::MIN as int
    } else if value > i32::MAX {
        i32::MAX as int
    } else {
        value
    }
}

/// Brings a value into the range of 32 bits.
pub fn clamp_i128_to_i32(value: i128) -> (result: i32)
    ensures
        result == clamped(value as int),
{
    if value < -0x8000_0000 {
        i32::MIN
    } else if value > 0x7fff_ffff {
        i32::MAX
    } else {
        value as i32
    }
}

// ---------------------------------------------------------------------------
// Laws
// ---------------------------------------------------------------------------

proof fn lemma_distance_bound(values: Seq<int>, count: int, i: int)
    requires
        0 <= i < count,
    ensures
        distance(values[i]) <= largest_distance(values, count),
    decreases count,
{
    if i < count - 1 {
        lemma_distance_bound(values, count - 1, i);
    }
}

/// Shifting values left by their headroom loses nothing: the shifted values stay
/// in range, so that wrapping does not change them.
pub proof fn lemma_headroom_is_safe(values: Seq<i32>, i: int)
    requires
        0 <= i < values.len(),
    ensures
        ({
            let headroom = 31 - bit_length(largest_distance(wide_numbers(values), values.len() as int));
            0 <= headroom ==> scaled(values[i] as int, headroom) == values[i] * pow2(headroom as nat)
        }),
{
    let numbers = wide_numbers(values);
    let largest = largest_distance(numbers, values.len() as int);
    let digits = bit_length(largest);
    let headroom = 31 - digits;
    if 0 <= headroom {
        lemma_distance_bound(numbers, values.len() as int, i);
        lemma_bit_length(largest);
        lemma_pow2_adds(digits, headroom as nat);
        lemma2_to64();
        lemma_pow2_pos(headroom as nat);
        let v = values[i] as int;
        let p = pow2(headroom as nat) as int;
        let d = pow2(digits) as int;
        assert(numbers[i] == v);
        assert(-d <= v < d);
        assert(-0x8000_0000 <= v * p < 0x8000_0000) by (nonlinear_arith)
            requires
                -d <= v < d,
                p > 0,
                d * p == 0x8000_0000,
        ;
    }
}

/// Narrowing undoes widening.
pub proof fn lemma_narrowing_undoes_widening(value: i16)
    ensures
        (value * 0x1_0000) / 0x1_0000 == value,
{
}

/// Rounding takes the nearest whole number of steps; from the middle between two it goes
/// away from zero, and it treats both signs alike.
pub proof fn lemma_rounded_nearest(value: int, bits: nat)
    requires
        bits > 0,
    ensures
        ({
            let half = pow2((bits - 1) as nat);
            let difference = rounded(value, bits) * pow2(bits) - value;
            &&& -half <= difference <= half
            &&& value > 0 ==> difference > -half
            &&& value < 0 ==> difference < half
        }),
        rounded(-value, bits) == -rounded(value, bits),
{
    lemma_pow2_unfold(bits);
    vstd::arithmetic::power2::lemma_pow2_pos((bits - 1) as nat);
    let step = pow2(bits) as int;
    let half = pow2((bits - 1) as nat) as int;
    let size = if value >= 0 {
        value
    } else {
        -value
    };
    let quotient = (size + half) / step;
    vstd::arithmetic::div_mod::lemma_fundamental_div_mod(size + half, step);
    vstd::arithmetic::div_mod::lemma_mod_bound(size + half, step);
    assert(step * quotient == quotient * step) by (nonlinear_arith);
    assert((-quotient) * step == -(quotient * step)) by (nonlinear_arith);
    if value == 0 {
        vstd::arithmetic::div_mod::lemma_basic_div(half, step);
    }
}

/// Wrapping around keeps a number but for a multiple of two to the power 32, within range.
pub proof fn lemma_wrapped_congruent(value: int)
    ensures
        -0x8000_0000 <= wrapped(value) <= 0x7fff_ffff,
        (value - wrapped(value)) % 0x1_0000_0000 == 0,
{
    let shifted = value + 0x8000_0000;
    assert(value - wrapped(value) == shifted - shifted % 0x1_0000_0000);
}

/// Saturation takes the nearest number in the symmetric range.
pub proof fn lemma_saturated_nearest(value: int)
    ensures
        -0x7fff_ffff <= saturated(value) <= 0x7fff_ffff,
        -0x7fff_ffff <= value <= 0x7fff_ffff ==> saturated(value) == value,
        value > 0x7fff_ffff ==> saturated(value) == 0x7fff_ffff,
        value < -0x7fff_ffff ==> saturated(value) == -0x7fff_ffff,
        saturated(-value) == -saturated(value),
{
}

} // verus!
