//! Fixed-point transforms: a Fourier transform of thirty-two complex values and
//! cosine and sine transforms of sixty-four real values that are built on it.
//!
//! Complex values are stored as pairs of a real and an imaginary part. Every
//! pass halves its values, with rounding towards minus infinity.

pub mod laws;
pub mod range;
pub mod twiddles;

use vstd::prelude::*;

use range::{lemma_dct64_range, lemma_dst64_range};
use twiddles::{post_twiddle, post_twiddle_at, pre_twiddle, pre_twiddle_at, q15_of};

verus! {

/// Whether a number is a value of thirty-two bits.
pub open spec fn fits(value: int) -> bool {
    i32::MIN <= value <= i32::MAX
}

/// Half of the product with a factor of fifteen fractional bits.
pub open spec fn half_product(value: i32, factor: int) -> int {
    (value * factor) / 0x1_0000
}

/// A value doubled, wrapping around.
pub open spec fn doubled(value: i32) -> i32 {
    value.wrapping_add(value)
}

/// Cosine and sine of a quarter of pi, in fifteen fractional bits.
pub const PI_FOURTH_Q15: i32 = 0x5a82;

proof fn lemma_shift_one(value: i32)
    ensures
        value >> 1 == value as int / 2,
{
    assert(value >> 1 == value / 2) by (bit_vector);
}

proof fn lemma_shift_sixteen(value: i64)
    ensures
        value >> 16 == value as int / 0x1_0000,
{
    assert(value >> 16 == value / 0x1_0000) by (bit_vector);
}

/// Half of a value, rounded towards minus infinity.
fn half(value: i32) -> (result: i32)
    ensures
        result == value as int / 2,
{
    proof {
        lemma_shift_one(value);
    }
    value >> 1
}

proof fn lemma_half_product(value: i32, factor: int)
    requires
        0 <= factor <= 0x7fff,
    ensures
        -0x4000_0000 <= half_product(value, factor) < 0x4000_0000,
        -0x8000_0000_0000 < value * factor < 0x8000_0000_0000,
{
    assert(-0x8000_0000 * 0x7fff <= value * factor <= 0x7fff_ffff * 0x7fff) by (nonlinear_arith)
        requires
            -0x8000_0000 <= value <= 0x7fff_ffff,
            0 <= factor <= 0x7fff,
    ;
}

/// Half of the product with a factor of fifteen fractional bits.
fn mul_div2(value: i32, factor: i32) -> (result: i32)
    requires
        0 <= factor <= 0x7fff,
    ensures
        result == half_product(value, factor as int),
        -0x4000_0000 <= result < 0x4000_0000,
{
    proof {
        lemma_half_product(value, factor as int);
        lemma_shift_sixteen((value * factor) as i64);
    }
    ((value as i64 * factor as i64) >> 16) as i32
}

// ---------------------------------------------------------------------------
// Fourier transform
// ---------------------------------------------------------------------------

/// The first input of a group of four complex outputs of the first stage.
pub open spec fn group_source(group: int) -> int {
    if group == 0 {
        0
    } else if group == 1 {
        8
    } else if group == 2 {
        4
    } else if group == 3 {
        12
    } else if group == 4 {
        2
    } else if group == 5 {
        10
    } else if group == 6 {
        6
    } else {
        14
    }
}

/// Half the sum of two inputs.
pub open spec fn half_sum(values: Seq<i32>, a: int, b: int) -> int {
    (values[a] + values[b]) / 2
}

/// Output `k` of a transform of four complex values that start at `a` and lie
/// sixteen values apart. The halved sums stand for the sums themselves; the
/// differences are taken from them.
pub open spec fn quad(values: Seq<i32>, a: int, k: int) -> int {
    let vr = half_sum(values, a, a + 32);
    let ur = half_sum(values, a + 1, a + 33);
    let vi = half_sum(values, a + 16, a + 48);
    let ui = half_sum(values, a + 17, a + 49);
    let dr = vr - values[a + 32];
    let di = ur - values[a + 33];
    let er = vi - values[a + 48];
    let ei = ui - values[a + 49];
    if k == 0 {
        vr + vi
    } else if k == 1 {
        ur + ui
    } else if k == 2 {
        ei + dr
    } else if k == 3 {
        di - er
    } else if k == 4 {
        vr - vi
    } else if k == 5 {
        ur - ui
    } else if k == 6 {
        dr - ei
    } else {
        er + di
    }
}

/// The first stage at an index.
pub open spec fn radix4_at(values: Seq<i32>, i: int) -> int {
    quad(values, group_source(i / 8), i % 8)
}

/// The first stage: eight transforms of four complex values.
pub open spec fn radix4(values: Seq<i32>) -> Seq<i32> {
    Seq::new(64, |i: int| radix4_at(values, i) as i32)
}

/// Whether no sum of the first stage overflows.
pub open spec fn radix4_fits(values: Seq<i32>) -> bool {
    &&& forall|a: int|
        #![trigger values[a]]
        0 <= a < 32 ==> fits(values[a] + values[a + 32]) && fits(half_sum(values, a, a + 32) - values[a + 32])
    &&& forall|i: int| 0 <= i < 64 ==> fits(#[trigger] radix4_at(values, i))
}

/// The rotation of a pass of span 8, 16 or 32, at an even position below half
/// the span: cosine and sine in fifteen fractional bits.
pub open spec fn rotation(span: int, k: int) -> (int, int) {
    let step = k * 32 / span;
    if step == 4 {
        (0x7d8a, 0x18f9)
    } else if step == 8 {
        (0x7642, 0x30fc)
    } else if step == 12 {
        (0x6a6e, 0x471d)
    } else if step == 16 {
        (0x5a82, 0x5a82)
    } else if step == 20 {
        (0x471d, 0x6a6e)
    } else if step == 24 {
        (0x30fc, 0x7642)
    } else {
        (0x18f9, 0x7d8a)
    }
}

/// Half of the complex value at `at`, turned back by the angle of position `k`.
/// The second half of the positions is a quarter turn ahead of the first.
pub open spec fn turned(values: Seq<i32>, at: int, span: int, k: int) -> (int, int) {
    let re = values[at];
    let im = values[at + 1];
    if k == 0 {
        (re as int / 2, im as int / 2)
    } else if 2 * k == span {
        (im as int / 2, -(re as int / 2))
    } else if 2 * k < span {
        let (c, s) = rotation(span, 2 * k);
        (half_product(im, s) + half_product(re, c), half_product(im, c) - half_product(re, s))
    } else {
        let (c, s) = rotation(span, 2 * k - span);
        (half_product(im, c) - half_product(re, s), -(half_product(im, s) + half_product(re, c)))
    }
}

/// A pass that joins pairs of complex values `span` values apart, at an index.
pub open spec fn radix2_at(values: Seq<i32>, span: int, i: int) -> int {
    let part = i % 2;
    let place = i % (2 * span);
    let low = if place < span {
        i
    } else {
        i - span
    };
    let k = low % (2 * span) - part;
    let (re, im) = turned(values, low - part + span, span, k);
    let rotated = if part == 0 {
        re
    } else {
        im
    };
    if place < span {
        values[low] as int / 2 + rotated
    } else {
        values[low] as int / 2 - rotated
    }
}

/// A pass that joins pairs of complex values `span` values apart.
pub open spec fn radix2(values: Seq<i32>, span: int) -> Seq<i32> {
    Seq::new(64, |i: int| radix2_at(values, span, i) as i32)
}

/// Whether no sum of a pass overflows.
pub open spec fn radix2_fits(values: Seq<i32>, span: int) -> bool {
    forall|i: int| 0 <= i < 64 ==> fits(#[trigger] radix2_at(values, span, i))
}

/// The Fourier transform of thirty-two complex values, divided by sixteen.
pub open spec fn fft32(values: Seq<i32>) -> Seq<i32> {
    radix2(radix2(radix2(radix4(values), 8), 16), 32)
}

/// Whether no sum of the Fourier transform overflows.
pub open spec fn fft32_fits(values: Seq<i32>) -> bool {
    &&& radix4_fits(values)
    &&& radix2_fits(radix4(values), 8)
    &&& radix2_fits(radix2(radix4(values), 8), 16)
    &&& radix2_fits(radix2(radix2(radix4(values), 8), 16), 32)
}

/// One output of the first stage.
fn quad_output(values: &[i32; 64], a: usize, k: usize) -> (result: i32)
    requires
        a <= 14,
        a % 2 == 0,
        k < 8,
        radix4_fits(values@),
        fits(quad(values@, a as int, k as int)),
    ensures
        result == quad(values@, a as int, k as int),
{
    assert(fits(values@[a as int] + values@[a + 32]));
    assert(fits(values@[a + 1] + values@[a + 1 + 32]));
    assert(fits(values@[a + 16] + values@[a + 16 + 32]));
    assert(fits(values@[a + 17] + values@[a + 17 + 32]));
    let vr: i32 = half(values[a] + values[a + 32]);
    let ur: i32 = half(values[a + 1] + values[a + 33]);
    let vi: i32 = half(values[a + 16] + values[a + 48]);
    let ui: i32 = half(values[a + 17] + values[a + 49]);
    if k == 0 {
        vr + vi
    } else if k == 1 {
        ur + ui
    } else if k == 2 {
        (ui - values[a + 49]) + (vr - values[a + 32])
    } else if k == 3 {
        (ur - values[a + 33]) - (vi - values[a + 48])
    } else if k == 4 {
        vr - vi
    } else if k == 5 {
        ur - ui
    } else if k == 6 {
        (vr - values[a + 32]) - (ui - values[a + 49])
    } else {
        (vi - values[a + 48]) + (ur - values[a + 33])
    }
}

/// The first stage of the Fourier transform.
pub fn fft32_radix4_stage1(values: &mut [i32; 64])
    requires
        radix4_fits(old(values)@),
    ensures
        final(values)@ == radix4(old(values)@),
{
    let input: [i32; 64] = *values;
    let mut i: usize = 0;
    while i < 64
        invariant
            i <= 64,
            input@ == old(values)@,
            radix4_fits(input@),
            values@.len() == 64,
            forall|j: int| 0 <= j < i ==> #[trigger] values@[j] == radix4_at(input@, j) as i32,
        decreases 64 - i,
    {
        let group: usize = i / 8;
        let a: usize = match group {
            0 => 0,
            1 => 8,
            2 => 4,
            3 => 12,
            4 => 2,
            5 => 10,
            6 => 6,
            _ => 14,
        };
        assert(fits(radix4_at(input@, i as int)));
        let output: i32 = quad_output(&input, a, i % 8);
        values[i] = output;
        i = i + 1;
    }
    assert(values@ =~= radix4(input@));
}

/// The rotation of a pass.
fn rotation_at(span: usize, k: usize) -> (result: (i32, i32))
    requires
        span == 8 || span == 16 || span == 32,
        k < span,
    ensures
        (result.0 as int, result.1 as int) == rotation(span as int, k as int),
        0 <= result.0 <= 0x7fff,
        0 <= result.1 <= 0x7fff,
{
    let step: usize = k * 32 / span;
    match step {
        4 => (0x7d8a, 0x18f9),
        8 => (0x7642, 0x30fc),
        12 => (0x6a6e, 0x471d),
        16 => (PI_FOURTH_Q15, PI_FOURTH_Q15),
        20 => (0x471d, 0x6a6e),
        24 => (0x30fc, 0x7642),
        _ => (0x18f9, 0x7d8a),
    }
}

/// Half of a complex value, turned back.
fn turn(values: &[i32; 64], at: usize, span: usize, k: usize) -> (result: (i32, i32))
    requires
        span == 8 || span == 16 || span == 32,
        k < span,
        at < 63,
    ensures
        (result.0 as int, result.1 as int) == turned(values@, at as int, span as int, k as int),
{
    let re: i32 = values[at];
    let im: i32 = values[at + 1];
    if k == 0 {
        (half(re), half(im))
    } else if 2 * k == span {
        (half(im), -half(re))
    } else if 2 * k < span {
        let (c, s): (i32, i32) = rotation_at(span, 2 * k);
        (mul_div2(im, s) + mul_div2(re, c), mul_div2(im, c) - mul_div2(re, s))
    } else {
        let (c, s): (i32, i32) = rotation_at(span, 2 * k - span);
        let sum: i32 = mul_div2(im, s) + mul_div2(re, c);
        (mul_div2(im, c) - mul_div2(re, s), -sum)
    }
}

/// The lower partner of an index in a pass of span 8.
proof fn lemma_low_place_eight(i: int)
    requires
        0 <= i < 64,
    ensures
        i % 16 >= 8 ==> i >= 8 && (i - 8) % 16 == i % 16 - 8 && (i - 8) % 2 == i % 2 && i - i % 2 < 63,
        i % 16 < 8 ==> i - i % 2 + 8 < 63,
        i % 16 >= i % 2,
        i % 16 >= 8 ==> i % 16 - 8 >= i % 2,
{
}

/// The lower partner of an index in a pass of span 16.
proof fn lemma_low_place_sixteen(i: int)
    requires
        0 <= i < 64,
    ensures
        i % 32 >= 16 ==> i >= 16 && (i - 16) % 32 == i % 32 - 16 && (i - 16) % 2 == i % 2 && i - i % 2 < 63,
        i % 32 < 16 ==> i - i % 2 + 16 < 63,
        i % 32 >= i % 2,
        i % 32 >= 16 ==> i % 32 - 16 >= i % 2,
{
}

/// The lower partner of an index in a pass of span 32.
proof fn lemma_low_place_all(i: int)
    requires
        0 <= i < 64,
    ensures
        i % 64 >= 32 ==> i >= 32 && (i - 32) % 64 == i % 64 - 32 && (i - 32) % 2 == i % 2 && i - i % 2 < 63,
        i % 64 < 32 ==> i - i % 2 + 32 < 63,
        i % 64 >= i % 2,
        i % 64 >= 32 ==> i % 64 - 32 >= i % 2,
{
}

/// The lower partner of an index lies in the first half of its block.
proof fn lemma_low_place(i: int, span: int)
    requires
        span == 8 || span == 16 || span == 32,
        0 <= i < 64,
    ensures
        i % (2 * span) >= span ==> i >= span && (i - span) % (2 * span) == i % (2 * span) - span && (i - span) % 2 == i
            % 2 && i - i % 2 < 63,
        i % (2 * span) < span ==> i - i % 2 + span < 63,
        i % (2 * span) >= i % 2,
        i % (2 * span) >= span ==> i % (2 * span) - span >= i % 2,
{
    if span == 8 {
        lemma_low_place_eight(i);
        assert(2 * span == 16);
    } else if span == 16 {
        lemma_low_place_sixteen(i);
        assert(2 * span == 32);
    } else {
        lemma_low_place_all(i);
        assert(2 * span == 64);
    }
}

/// One pass of the Fourier transform.
fn radix2_pass(values: &mut [i32; 64], span: usize)
    requires
        span == 8 || span == 16 || span == 32,
        radix2_fits(old(values)@, span as int),
    ensures
        final(values)@ == radix2(old(values)@, span as int),
{
    let input: [i32; 64] = *values;
    let mut i: usize = 0;
    while i < 64
        invariant
            i <= 64,
            span == 8 || span == 16 || span == 32,
            input@ == old(values)@,
            radix2_fits(input@, span as int),
            values@.len() == 64,
            forall|j: int| 0 <= j < i ==> #[trigger] values@[j] == radix2_at(input@, span as int, j) as i32,
        decreases 64 - i,
    {
        proof {
            lemma_low_place(i as int, span as int);
        }
        let part: usize = i % 2;
        let place: usize = i % (2 * span);
        let low: usize = if place < span {
            i
        } else {
            i - span
        };
        let k: usize = low % (2 * span) - part;
        assert(fits(radix2_at(input@, span as int, i as int)));
        let (re, im): (i32, i32) = turn(&input, low - part + span, span, k);
        let rotated: i32 = if part == 0 {
            re
        } else {
            im
        };
        let base: i32 = half(input[low]);
        let output: i32 = if place < span {
            base + rotated
        } else {
            base - rotated
        };
        values[i] = output;
        i = i + 1;
    }
    assert(values@ =~= radix2(input@, span as int));
}

/// The second stage of the Fourier transform.
pub fn fft32_radix4_stage2(values: &mut [i32; 64])
    requires
        radix2_fits(old(values)@, 8),
    ensures
        final(values)@ == radix2(old(values)@, 8),
{
    radix2_pass(values, 8);
}

/// The third stage of the Fourier transform.
pub fn fft32_radix4_stage3(values: &mut [i32; 64])
    requires
        radix2_fits(old(values)@, 16),
        radix2_fits(radix2(old(values)@, 16), 32),
    ensures
        final(values)@ == radix2(radix2(old(values)@, 16), 32),
{
    radix2_pass(values, 16);
    radix2_pass(values, 32);
}

/// The Fourier transform of thirty-two complex values.
pub fn fixed_fft32(values: &mut [i32; 64])
    requires
        fft32_fits(old(values)@),
    ensures
        final(values)@ == fft32(old(values)@),
{
    fft32_radix4_stage1(values);
    fft32_radix4_stage2(values);
    fft32_radix4_stage3(values);
}

// ---------------------------------------------------------------------------
// Cosine and sine transforms
// ---------------------------------------------------------------------------

/// Half of a complex product with a factor.
pub open spec fn twiddled(re: i32, im: i32, twiddle: (u32, u32)) -> (int, int) {
    let c = q15_of(twiddle.0);
    let s = q15_of(twiddle.1);
    (half_product(re, c) - half_product(im, s), half_product(re, s) + half_product(im, c))
}

/// A complex product with a factor, wrapping around.
pub open spec fn twiddled_whole(re: i32, im: i32, twiddle: (u32, u32)) -> (i32, i32) {
    let (a, b) = twiddled(re, im, twiddle);
    (doubled(a as i32), doubled(b as i32))
}

/// A value divided by the square root of two.
pub open spec fn root_half(value: i32) -> i32 {
    doubled(half_product(value, 0x5a82) as i32)
}

/// The input of the Fourier transform in the cosine transform, at an index.
pub open spec fn dct_input_at(values: Seq<i32>, i: int) -> int {
    let even = i - i % 2;
    if i < 32 {
        let (a, b) = twiddled(values[63 - even], values[even], pre_twiddle(even));
        if i % 2 == 0 {
            b / 2
        } else {
            a / 2
        }
    } else {
        let (a, b) = twiddled(values[even], values[63 - even], pre_twiddle(63 - even));
        if i % 2 == 0 {
            b / 2
        } else {
            -(a / 2)
        }
    }
}

/// The input of the Fourier transform in the cosine transform.
pub open spec fn dct_input(values: Seq<i32>) -> Seq<i32> {
    Seq::new(64, |i: int| dct_input_at(values, i) as i32)
}

/// The output of the cosine transform out of the Fourier transform, at an index.
pub open spec fn dct_output_at(values: Seq<i32>, i: int) -> int {
    if i == 0 {
        values[0] as int
    } else if i == 63 {
        -values[1]
    } else if i == 31 {
        root_half(values[32]) - root_half(values[33])
    } else if i == 32 {
        root_half(values[32]) + root_half(values[33])
    } else if i < 32 {
        if i % 2 == 1 {
            twiddled_whole(values[63 - i], values[64 - i], post_twiddle((i - 1) / 2)).0 as int
        } else {
            twiddled_whole(values[i + 1], values[i], post_twiddle((i - 2) / 2)).1 as int
        }
    } else if i % 2 == 0 {
        twiddled_whole(values[i], values[i + 1], post_twiddle((62 - i) / 2)).1 as int
    } else {
        -twiddled_whole(values[64 - i], values[63 - i], post_twiddle((61 - i) / 2)).0
    }
}

/// The cosine transform of sixty-four values.
pub open spec fn dct64(values: Seq<i32>) -> Seq<i32> {
    let transformed = fft32(dct_input(values));
    Seq::new(64, |i: int| dct_output_at(transformed, i) as i32)
}

/// Whether no sum of the cosine transform overflows.
pub open spec fn dct64_fits(values: Seq<i32>) -> bool {
    &&& fft32_fits(dct_input(values))
    &&& forall|i: int| 0 <= i < 64 ==> fits(#[trigger] dct_output_at(fft32(dct_input(values)), i))
}

/// The input of the Fourier transform in the sine transform, at an index.
pub open spec fn dst_input_at(values: Seq<i32>, i: int) -> int {
    let even = i - i % 2;
    if i < 32 {
        let (a, b) = twiddled(
            (values[63 - even] as int / 2) as i32,
            (-(values[even] as int / 2)) as i32,
            pre_twiddle(even),
        );
        if i % 2 == 0 {
            b
        } else {
            a
        }
    } else {
        let (a, b) = twiddled(
            (-(values[even] as int / 2)) as i32,
            (values[63 - even] as int / 2) as i32,
            pre_twiddle(63 - even),
        );
        if i % 2 == 0 {
            b
        } else {
            -a
        }
    }
}

/// The input of the Fourier transform in the sine transform.
pub open spec fn dst_input(values: Seq<i32>) -> Seq<i32> {
    Seq::new(64, |i: int| dst_input_at(values, i) as i32)
}

/// The output of the sine transform out of the Fourier transform, at an index.
pub open spec fn dst_output_at(values: Seq<i32>, i: int) -> int {
    if i == 0 {
        values[1] as int
    } else if i == 63 {
        -values[0]
    } else if i == 31 {
        -root_half(values[32]) - root_half(values[33])
    } else if i == 32 {
        root_half(values[33]) - root_half(values[32])
    } else if i < 32 {
        if i % 2 == 1 {
            -twiddled_whole(values[63 - i], values[64 - i], post_twiddle((i - 1) / 2)).1
        } else {
            twiddled_whole(values[i + 1], values[i], post_twiddle((i - 2) / 2)).0 as int
        }
    } else if i % 2 == 0 {
        -twiddled_whole(values[i], values[i + 1], post_twiddle((62 - i) / 2)).0
    } else {
        -twiddled_whole(values[64 - i], values[63 - i], post_twiddle((61 - i) / 2)).1
    }
}

/// The sine transform of sixty-four values.
pub open spec fn dst64(values: Seq<i32>) -> Seq<i32> {
    let transformed = fft32(dst_input(values));
    Seq::new(64, |i: int| dst_output_at(transformed, i) as i32)
}

/// Whether no sum of the sine transform overflows.
pub open spec fn dst64_fits(values: Seq<i32>) -> bool {
    &&& fft32_fits(dst_input(values))
    &&& forall|i: int| 0 <= i < 64 ==> fits(#[trigger] dst_output_at(fft32(dst_input(values)), i))
}

/// A factor of thirty-one fractional bits rounded to fifteen.
pub fn q31_rom_to_q15(value: u32) -> (factor: i32)
    ensures
        factor == q15_of(value),
        0 <= factor <= 0x7fff,
{
    let rounded: u64 = (value as u64 + 0x8000) / 0x1_0000;
    if rounded < 0x7fff {
        rounded as i32
    } else {
        0x7fff
    }
}

/// Half of a complex product with a factor.
pub fn complex_mul_div2_q15(ar: i32, ai: i32, twiddle: (u32, u32)) -> (result: (i32, i32))
    ensures
        (result.0 as int, result.1 as int) == twiddled(ar, ai, twiddle),
        -0x8000_0000 < result.0,
{
    let c: i32 = q31_rom_to_q15(twiddle.0);
    let s: i32 = q31_rom_to_q15(twiddle.1);
    let re_c: i32 = mul_div2(ar, c);
    let im_s: i32 = mul_div2(ai, s);
    let re_s: i32 = mul_div2(ar, s);
    let im_c: i32 = mul_div2(ai, c);
    (re_c - im_s, re_s + im_c)
}

/// A complex product with a factor, wrapping around.
pub fn complex_mul_q15(ar: i32, ai: i32, twiddle: (u32, u32)) -> (result: (i32, i32))
    ensures
        result == twiddled_whole(ar, ai, twiddle),
{
    let (re, im): (i32, i32) = complex_mul_div2_q15(ar, ai, twiddle);
    (re.wrapping_add(re), im.wrapping_add(im))
}

fn divide_by_root_two(value: i32) -> (result: i32)
    ensures
        result == root_half(value),
{
    let product: i32 = mul_div2(value, PI_FOURTH_Q15);
    product.wrapping_add(product)
}

fn dct_input_value(values: &[i32; 64], i: usize) -> (result: i32)
    requires
        i < 64,
    ensures
        result == dct_input_at(values@, i as int),
{
    let even: usize = i - i % 2;
    if i < 32 {
        let (a, b): (i32, i32) = complex_mul_div2_q15(values[63 - even], values[even], pre_twiddle_at(even));
        if i % 2 == 0 {
            half(b)
        } else {
            half(a)
        }
    } else {
        let (a, b): (i32, i32) = complex_mul_div2_q15(values[even], values[63 - even], pre_twiddle_at(63 - even));
        if i % 2 == 0 {
            half(b)
        } else {
            -half(a)
        }
    }
}

fn dct_output_value(values: &[i32; 64], i: usize) -> (result: i32)
    requires
        i < 64,
        fits(dct_output_at(values@, i as int)),
    ensures
        result == dct_output_at(values@, i as int),
{
    if i == 0 {
        values[0]
    } else if i == 63 {
        -values[1]
    } else if i == 31 {
        divide_by_root_two(values[32]) - divide_by_root_two(values[33])
    } else if i == 32 {
        divide_by_root_two(values[32]) + divide_by_root_two(values[33])
    } else if i < 32 {
        if i % 2 == 1 {
            complex_mul_q15(values[63 - i], values[64 - i], post_twiddle_at((i - 1) / 2)).0
        } else {
            complex_mul_q15(values[i + 1], values[i], post_twiddle_at((i - 2) / 2)).1
        }
    } else if i % 2 == 0 {
        complex_mul_q15(values[i], values[i + 1], post_twiddle_at((62 - i) / 2)).1
    } else {
        let product: i32 = complex_mul_q15(values[64 - i], values[63 - i], post_twiddle_at((61 - i) / 2)).0;
        -product
    }
}

/// The cosine transform of sixty-four values. Gives the number of bits by which
/// the output is scaled down.
pub fn fixed_dct_iv_64(values: &mut [i32; 64]) -> (scale: i32)
    ensures
        final(values)@ == dct64(old(values)@),
        scale == 6,
{
    proof {
        lemma_dct64_range(values@);
    }
    let input: [i32; 64] = *values;
    let mut i: usize = 0;
    while i < 64
        invariant
            i <= 64,
            input@ == old(values)@,
            values@.len() == 64,
            forall|j: int| 0 <= j < i ==> #[trigger] values@[j] == dct_input_at(input@, j) as i32,
        decreases 64 - i,
    {
        let value: i32 = dct_input_value(&input, i);
        values[i] = value;
        i = i + 1;
    }
    assert(values@ =~= dct_input(input@));
    fixed_fft32(values);
    let transformed: [i32; 64] = *values;
    let mut i: usize = 0;
    while i < 64
        invariant
            i <= 64,
            forall|j: int| 0 <= j < 64 ==> fits(#[trigger] dct_output_at(transformed@, j)),
            values@.len() == 64,
            forall|j: int| 0 <= j < i ==> #[trigger] values@[j] == dct_output_at(transformed@, j) as i32,
        decreases 64 - i,
    {
        assert(fits(dct_output_at(transformed@, i as int)));
        let value: i32 = dct_output_value(&transformed, i);
        values[i] = value;
        i = i + 1;
    }
    assert(values@ =~= dct64(old(values)@));
    6
}

fn dst_input_value(values: &[i32; 64], i: usize) -> (result: i32)
    requires
        i < 64,
    ensures
        result == dst_input_at(values@, i as int),
{
    let even: usize = i - i % 2;
    if i < 32 {
        let (a, b): (i32, i32) = complex_mul_div2_q15(
            half(values[63 - even]),
            -half(values[even]),
            pre_twiddle_at(even),
        );
        if i % 2 == 0 {
            b
        } else {
            a
        }
    } else {
        let (a, b): (i32, i32) = complex_mul_div2_q15(
            -half(values[even]),
            half(values[63 - even]),
            pre_twiddle_at(63 - even),
        );
        if i % 2 == 0 {
            b
        } else {
            -a
        }
    }
}

fn dst_output_value(values: &[i32; 64], i: usize) -> (result: i32)
    requires
        i < 64,
        fits(dst_output_at(values@, i as int)),
    ensures
        result == dst_output_at(values@, i as int),
{
    if i == 0 {
        values[1]
    } else if i == 63 {
        -values[0]
    } else if i == 31 {
        let first: i64 = divide_by_root_two(values[32]) as i64;
        let second: i64 = divide_by_root_two(values[33]) as i64;
        (-first - second) as i32
    } else if i == 32 {
        divide_by_root_two(values[33]) - divide_by_root_two(values[32])
    } else if i < 32 {
        if i % 2 == 1 {
            let product: i32 = complex_mul_q15(values[63 - i], values[64 - i], post_twiddle_at((i - 1) / 2)).1;
            -product
        } else {
            complex_mul_q15(values[i + 1], values[i], post_twiddle_at((i - 2) / 2)).0
        }
    } else if i % 2 == 0 {
        let product: i32 = complex_mul_q15(values[i], values[i + 1], post_twiddle_at((62 - i) / 2)).0;
        -product
    } else {
        let product: i32 = complex_mul_q15(values[64 - i], values[63 - i], post_twiddle_at((61 - i) / 2)).1;
        -product
    }
}

/// The sine transform of sixty-four values. Gives the number of bits by which
/// the output is scaled down.
pub fn fixed_dst_iv_64(values: &mut [i32; 64]) -> (scale: i32)
    ensures
        final(values)@ == dst64(old(values)@),
        scale == 6,
{
    proof {
        lemma_dst64_range(values@);
    }
    let input: [i32; 64] = *values;
    let mut i: usize = 0;
    while i < 64
        invariant
            i <= 64,
            input@ == old(values)@,
            values@.len() == 64,
            forall|j: int| 0 <= j < i ==> #[trigger] values@[j] == dst_input_at(input@, j) as i32,
        decreases 64 - i,
    {
        let value: i32 = dst_input_value(&input, i);
        values[i] = value;
        i = i + 1;
    }
    assert(values@ =~= dst_input(input@));
    fixed_fft32(values);
    let transformed: [i32; 64] = *values;
    let mut i: usize = 0;
    while i < 64
        invariant
            i <= 64,
            forall|j: int| 0 <= j < 64 ==> fits(#[trigger] dst_output_at(transformed@, j)),
            values@.len() == 64,
            forall|j: int| 0 <= j < i ==> #[trigger] values@[j] == dst_output_at(transformed@, j) as i32,
        decreases 64 - i,
    {
        assert(fits(dst_output_at(transformed@, i as int)));
        let value: i32 = dst_output_value(&transformed, i);
        values[i] = value;
        i = i + 1;
    }
    assert(values@ =~= dst64(old(values)@));
    6
}

} // verus!
