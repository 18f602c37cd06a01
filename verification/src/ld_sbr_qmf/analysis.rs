//! The fixed-point analysis bank of 64 bands: a polyphase filter, a cosine and a
//! sine transform, and a rotation.

use vstd::prelude::*;

use crate::fixed::{floor_quotient, wrap, wrapped};
use crate::fixed_fft::{dct64, dst64, fixed_dct_iv_64, fixed_dst_iv_64};

verus! {

/// The products of the filter at a place, the first `count` phases summed up.
pub open spec fn filter_sum(prototype: Seq<i32>, states: Seq<i32>, k: int, count: int) -> int
    decreases count,
{
    if count <= 0 {
        0
    } else {
        filter_sum(prototype, states, k, count - 1) + prototype[5 * k + count - 1] * states[k + 128 * (count - 1)]
    }
}

/// The filtered samples, in reverse, doubled and wrapping around.
pub open spec fn filtered(prototype: Seq<i32>, states: Seq<i32>) -> Seq<i32> {
    Seq::new(128, |i: int| wrapped(2 * filter_sum(prototype, states, 127 - i, 5)) as i32)
}

proof fn lemma_filter_sum_bound(prototype: Seq<i32>, states: Seq<i32>, k: int, count: int)
    requires
        0 <= count <= 5,
    ensures
        -count * 0x4000_0000_0000_0000 <= filter_sum(prototype, states, k, count) <= count * 0x4000_0000_0000_0000,
    decreases count,
{
    if count > 0 {
        lemma_filter_sum_bound(prototype, states, k, count - 1);
        let a = prototype[5 * k + count - 1];
        let b = states[k + 128 * (count - 1)];
        assert(-0x4000_0000_0000_0000 <= a * b <= 0x4000_0000_0000_0000) by (nonlinear_arith)
            requires
                -0x8000_0000 <= a <= 0x7fff_ffff,
                -0x8000_0000 <= b <= 0x7fff_ffff,
        ;
    }
}

/// Filters the last 640 samples.
pub fn cldfb64_fixed_time(prototype: &[i32], states: &[i32]) -> (time: [i32; 128])
    requires
        prototype@.len() == 640,
        states@.len() == 640,
    ensures
        time@ == filtered(prototype@, states@),
{
    let mut time: [i32; 128] = [0;128];
    let mut k: usize = 0;
    while k < 128
        invariant
            k <= 128,
            prototype@.len() == 640,
            states@.len() == 640,
            time@.len() == 128,
            forall|i: int| 128 - k <= i < 128 ==> #[trigger] time@[i] == filtered(prototype@, states@)[i],
        decreases 128 - k,
    {
        let mut sum: i128 = 0;
        let mut phase: usize = 0;
        while phase < 5
            invariant
                phase <= 5,
                k < 128,
                prototype@.len() == 640,
                states@.len() == 640,
                sum == filter_sum(prototype@, states@, k as int, phase as int),
            decreases 5 - phase,
        {
            let coefficient: i32 = prototype[5 * k + phase];
            let state: i32 = states[k + 128 * phase];
            proof {
                lemma_filter_sum_bound(prototype@, states@, k as int, phase as int);
                assert(-0x4000_0000_0000_0000 <= coefficient * state <= 0x4000_0000_0000_0000) by (nonlinear_arith)
                    requires
                        -0x8000_0000 <= coefficient <= 0x7fff_ffff,
                        -0x8000_0000 <= state <= 0x7fff_ffff,
                ;
            }
            sum = sum + coefficient as i128 * state as i128;
            phase = phase + 1;
        }
        proof {
            lemma_filter_sum_bound(prototype@, states@, k as int, 5);
        }
        time[127 - k] = wrap(2 * sum);
        k = k + 1;
    }
    assert(time@ =~= filtered(prototype@, states@));
    time
}

/// The input of the cosine transform.
pub open spec fn cosine_input(time: Seq<i32>) -> Seq<i32> {
    Seq::new(64, |b: int| (time[b] as int / 2 - time[127 - b] as int / 2) as i32)
}

/// The input of the sine transform.
pub open spec fn sine_input(time: Seq<i32>) -> Seq<i32> {
    Seq::new(64, |b: int| (time[b] as int / 2 + time[127 - b] as int / 2) as i32)
}

/// A product with a factor of fifteen fractional bits, wrapping around.
pub open spec fn turned(value: int, factor: int) -> int {
    wrapped(2 * ((value * factor) / 0x1_0000))
}

/// The real parts of the bands.
pub open spec fn slot_real(time: Seq<i32>, cosine: Seq<i32>, sine: Seq<i32>) -> Seq<i32> {
    let cosines = dct64(cosine_input(time));
    let sines = dst64(sine_input(time));
    Seq::new(
        64,
        |b: int|
            wrapped(turned(sines[b] as int, sine[b] as int) + turned(cosines[b] as int, cosine[b] as int)) as i32,
    )
}

/// The imaginary parts of the bands.
pub open spec fn slot_imaginary(time: Seq<i32>, cosine: Seq<i32>, sine: Seq<i32>) -> Seq<i32> {
    let cosines = dct64(cosine_input(time));
    let sines = dst64(sine_input(time));
    Seq::new(
        64,
        |b: int|
            wrapped(turned(sines[b] as int, cosine[b] as int) - turned(cosines[b] as int, sine[b] as int)) as i32,
    )
}

fn turn(value: i32, factor: i32) -> (result: i32)
    ensures
        result == turned(value as int, factor as int),
{
    proof {
        assert(-0x4000_0000_0000_0000 <= value * factor <= 0x4000_0000_0000_0000) by (nonlinear_arith)
            requires
                -0x8000_0000 <= value <= 0x7fff_ffff,
                -0x8000_0000 <= factor <= 0x7fff_ffff,
        ;
    }
    wrap(2 * floor_quotient(value as i128 * factor as i128, 0x1_0000))
}

fn halved(value: i32) -> (half: i32)
    ensures
        half == value as int / 2,
{
    floor_quotient(value as i128, 2) as i32
}

/// Transforms and rotates filtered samples into the real and imaginary parts of
/// 64 bands.
pub fn cldfb64_fixed_slot(time: &[i32; 128], cosine: &[i32; 64], sine: &[i32; 64]) -> (parts: ([i32; 64], [i32; 64]))
    ensures
        parts.0@ == slot_real(time@, cosine@, sine@),
        parts.1@ == slot_imaginary(time@, cosine@, sine@),
{
    let mut cosines: [i32; 64] = [0;64];
    let mut sines: [i32; 64] = [0;64];
    let mut band: usize = 0;
    while band < 64
        invariant
            band <= 64,
            cosines@.len() == 64,
            sines@.len() == 64,
            forall|b: int| 0 <= b < band ==> #[trigger] cosines@[b] == cosine_input(time@)[b],
            forall|b: int| 0 <= b < band ==> #[trigger] sines@[b] == sine_input(time@)[b],
        decreases 64 - band,
    {
        let first: i32 = halved(time[band]);
        let second: i32 = halved(time[127 - band]);
        cosines[band] = first - second;
        sines[band] = first + second;
        band = band + 1;
    }
    assert(cosines@ =~= cosine_input(time@));
    assert(sines@ =~= sine_input(time@));
    let _ = fixed_dct_iv_64(&mut cosines);
    let _ = fixed_dst_iv_64(&mut sines);
    rotated(&cosines, &sines, cosine, sine)
}

fn rotated(cosines: &[i32; 64], sines: &[i32; 64], cosine: &[i32; 64], sine: &[i32; 64]) -> (parts: ([i32; 64], [i32; 64]))
    ensures
        parts.0@ == Seq::new(
            64,
            |b: int|
                wrapped(
                    turned(sines@[b] as int, sine@[b] as int) + turned(cosines@[b] as int, cosine@[b] as int),
                ) as i32,
        ),
        parts.1@ == Seq::new(
            64,
            |b: int|
                wrapped(
                    turned(sines@[b] as int, cosine@[b] as int) - turned(cosines@[b] as int, sine@[b] as int),
                ) as i32,
        ),
{
    let mut first: [i32; 64] = [0;64];
    let mut second: [i32; 64] = [0;64];
    let mut band: usize = 0;
    while band < 64
        invariant
            band <= 64,
            first@.len() == 64,
            second@.len() == 64,
            forall|b: int|
                0 <= b < band ==> #[trigger] first@[b] == wrapped(
                    turned(sines@[b] as int, sine@[b] as int) + turned(cosines@[b] as int, cosine@[b] as int),
                ),
            forall|b: int|
                0 <= b < band ==> #[trigger] second@[b] == wrapped(
                    turned(sines@[b] as int, cosine@[b] as int) - turned(cosines@[b] as int, sine@[b] as int),
                ),
        decreases 64 - band,
    {
        let imaginary_sine: i32 = turn(sines[band], sine[band]);
        let real_cosine: i32 = turn(cosines[band], cosine[band]);
        let imaginary_cosine: i32 = turn(sines[band], cosine[band]);
        let real_sine: i32 = turn(cosines[band], sine[band]);
        first[band] = wrap(imaginary_sine as i128 + real_cosine as i128);
        second[band] = wrap(imaginary_cosine as i128 - real_sine as i128);
        band = band + 1;
    }
    assert(first@ =~= Seq::new(
        64,
        |b: int|
            wrapped(turned(sines@[b] as int, sine@[b] as int) + turned(cosines@[b] as int, cosine@[b] as int)) as i32,
    ));
    assert(second@ =~= Seq::new(
        64,
        |b: int|
            wrapped(turned(sines@[b] as int, cosine@[b] as int) - turned(cosines@[b] as int, sine@[b] as int)) as i32,
    ));
    (first, second)
}

// ---------------------------------------------------------------------------
// Laws of the analysis
// ---------------------------------------------------------------------------

proof fn lemma_filter_impulse(prototype: Seq<i32>, states: Seq<i32>, at: int, k: int, count: int)
    requires
        0 <= at < 640,
        0 <= k < 128,
        0 <= count <= 5,
        forall|i: int| 0 <= i < 640 && i != at ==> #[trigger] states[i] == 0,
    ensures
        filter_sum(prototype, states, k, count) == if at % 128 == k && at / 128 < count {
            prototype[5 * k + at / 128] * states[at]
        } else {
            0
        },
    decreases count,
{
    if count > 0 {
        lemma_filter_impulse(prototype, states, at, k, count - 1);
        let place = k + 128 * (count - 1);
        let a = prototype[5 * k + count - 1];
        if place == at {
            assert(at % 128 == k && at / 128 == count - 1);
        } else {
            assert(states[place] == 0);
            assert(a * 0 == 0) by (nonlinear_arith);
            assert(!(at % 128 == k && at / 128 == count - 1));
        }
    }
}

/// A single sample is heard at one place, the same for all samples that are 128
/// apart, counted from the end: each of them there with the coefficient of its own
/// phase.
pub proof fn lemma_sample_response(prototype: Seq<i32>, states: Seq<i32>, at: int, i: int)
    requires
        prototype.len() == 640,
        states.len() == 640,
        0 <= at < 640,
        0 <= i < 128,
        forall|k: int| 0 <= k < 640 && k != at ==> #[trigger] states[k] == 0,
    ensures
        filtered(prototype, states)[i] == if i == 127 - at % 128 {
            wrapped(2 * (prototype[5 * (at % 128) + at / 128] * states[at]))
        } else {
            0
        },
{
    lemma_filter_impulse(prototype, states, at, 127 - i, 5);
}

proof fn lemma_filter_adds_up(
    prototype: Seq<i32>,
    first: Seq<i32>,
    second: Seq<i32>,
    both: Seq<i32>,
    k: int,
    count: int,
)
    requires
        0 <= k < 128,
        0 <= count <= 5,
        forall|i: int| 0 <= i < 640 ==> #[trigger] both[i] == first[i] + second[i],
    ensures
        filter_sum(prototype, both, k, count) == filter_sum(prototype, first, k, count) + filter_sum(
            prototype,
            second,
            k,
            count,
        ),
    decreases count,
{
    if count > 0 {
        lemma_filter_adds_up(prototype, first, second, both, k, count - 1);
        let place = k + 128 * (count - 1);
        let c = prototype[5 * k + count - 1] as int;
        let a = first[place] as int;
        let b = second[place] as int;
        assert(both[place] == a + b);
        assert(c * (a + b) == c * a + c * b) by (nonlinear_arith);
    }
}

/// Samples add up: what two runs of samples give together is the sum of what each
/// gives, wrapping around.
pub proof fn lemma_samples_add_up(prototype: Seq<i32>, first: Seq<i32>, second: Seq<i32>, both: Seq<i32>, i: int)
    requires
        prototype.len() == 640,
        first.len() == 640,
        second.len() == 640,
        both.len() == 640,
        forall|k: int| 0 <= k < 640 ==> #[trigger] both[k] == first[k] + second[k],
        0 <= i < 128,
    ensures
        filtered(prototype, both)[i] == wrapped(filtered(prototype, first)[i] + filtered(prototype, second)[i]),
{
    lemma_filter_adds_up(prototype, first, second, both, 127 - i, 5);
    let a = filter_sum(prototype, first, 127 - i, 5);
    let b = filter_sum(prototype, second, 127 - i, 5);
    lemma_wrapped_sum(2 * a, 2 * b);
}

proof fn lemma_wrapped_sum(a: int, b: int)
    ensures
        wrapped(wrapped(a) + wrapped(b)) == wrapped(a + b),
        i32::MIN <= wrapped(a) <= i32::MAX,
        i32::MIN <= wrapped(b) <= i32::MAX,
{
    let n = 0x1_0000_0000int;
    let h = 0x8000_0000int;
    vstd::arithmetic::div_mod::lemma_fundamental_div_mod(a + h, n);
    vstd::arithmetic::div_mod::lemma_fundamental_div_mod(b + h, n);
    let shift = (a + h) / n + (b + h) / n;
    assert(wrapped(a) + wrapped(b) == a + b - n * shift) by (nonlinear_arith)
        requires
            a + h == n * ((a + h) / n) + (a + h) % n,
            b + h == n * ((b + h) / n) + (b + h) % n,
            wrapped(a) == (a + h) % n - h,
            wrapped(b) == (b + h) % n - h,
            shift == (a + h) / n + (b + h) / n,
    ;
    vstd::arithmetic::div_mod::lemma_mod_multiples_vanish(-shift, a + b + h, n);
    assert(n * (-shift) + (a + b + h) == a + b - n * shift + h) by (nonlinear_arith);
}

/// The halves of the filtered samples go to the two transforms: where the second
/// half mirrors the first, the cosine transform gets silence, and the sine transform
/// twice the halved samples; where it mirrors it with the other sign, the other way
/// round, but for rounding.
pub proof fn lemma_halves_part(time: Seq<i32>, b: int)
    requires
        time.len() == 128,
        0 <= b < 64,
    ensures
        time[127 - b] == time[b] ==> cosine_input(time)[b] == 0 && sine_input(time)[b] == 2 * (time[b] as int / 2),
        time[127 - b] == -time[b] && time[b] as int % 2 == 0 ==> sine_input(time)[b] == 0 && cosine_input(time)[b] == 2 * (
        time[b] as int / 2),
        cosine_input(time)[b] + sine_input(time)[b] == 2 * (time[b] as int / 2),
        sine_input(time)[b] - cosine_input(time)[b] == 2 * (time[127 - b] as int / 2),
{
}

/// The bands are turned: without sines, the real parts are the cosine transform and
/// the imaginary parts the sine transform, both times the cosines; a quarter turn
/// further, the real parts are the sine transform, and the imaginary parts the
/// cosine transform with the other sign.
pub proof fn lemma_bands_turn(time: Seq<i32>, zeros: Seq<i32>, factors: Seq<i32>, b: int)
    requires
        0 <= b < 64,
        zeros.len() == 64,
        factors.len() == 64,
        zeros[b] == 0,
    ensures
        ({
            let c = dct64(cosine_input(time))[b] as int;
            let s = dst64(sine_input(time))[b] as int;
            let f = factors[b] as int;
            &&& slot_real(time, factors, zeros)[b] == turned(c, f)
            &&& slot_imaginary(time, factors, zeros)[b] == turned(s, f)
            &&& slot_real(time, zeros, factors)[b] == turned(s, f)
            &&& slot_imaginary(time, zeros, factors)[b] == wrapped(-turned(c, f))
        }),
{
    let c = dct64(cosine_input(time))[b] as int;
    let s = dst64(sine_input(time))[b] as int;
    let f = factors[b] as int;
    lemma_slot_parts(time, factors, zeros, b);
    lemma_slot_parts(time, zeros, factors, b);
    lemma_turned_facts(c, f);
    lemma_turned_facts(s, f);
}

/// The parts of a band.
proof fn lemma_slot_parts(time: Seq<i32>, cosine: Seq<i32>, sine: Seq<i32>, b: int)
    requires
        0 <= b < 64,
    ensures
        ({
            let c = dct64(cosine_input(time))[b] as int;
            let s = dst64(sine_input(time))[b] as int;
            &&& slot_real(time, cosine, sine)[b] == wrapped(turned(s, sine[b] as int) + turned(c, cosine[b] as int))
            &&& slot_imaginary(time, cosine, sine)[b] == wrapped(turned(s, cosine[b] as int) - turned(c, sine[b] as int))
        }),
{
    let c = dct64(cosine_input(time))[b] as int;
    let s = dst64(sine_input(time))[b] as int;
    lemma_wrapped_sum(turned(s, sine[b] as int) + turned(c, cosine[b] as int), 0);
    lemma_wrapped_sum(turned(s, cosine[b] as int) - turned(c, sine[b] as int), 0);
}

proof fn lemma_turned_facts(value: int, factor: int)
    ensures
        turned(value, 0) == 0,
        wrapped(turned(value, factor)) == turned(value, factor),
        wrapped(0 + turned(value, factor)) == turned(value, factor),
        wrapped(turned(value, factor) + 0) == turned(value, factor),
        wrapped(turned(value, factor) - 0) == turned(value, factor),
        wrapped(0 - turned(value, factor)) == wrapped(-turned(value, factor)),
{
    assert(value * 0 == 0) by (nonlinear_arith);
    lemma_wrapped_sum(2 * ((value * factor) / 0x1_0000), 0);
}

proof fn lemma_joined_turns(sine_real: int, cosine_real: int, sine_imaginary: int, cosine_imaginary: int)
    requires
        wrapped(sine_imaginary) == sine_imaginary,
    ensures
        wrapped(sine_real + cosine_real) == wrapped(cosine_real + sine_real),
        wrapped(sine_imaginary - cosine_imaginary) == wrapped(sine_imaginary + wrapped(-cosine_imaginary)),
{
    lemma_wrapped_sum(sine_imaginary, -cosine_imaginary);
}

/// The parts of a band with any factors are those with its cosine and those with its
/// sine together, wrapping around.
pub proof fn lemma_turns_add_up(time: Seq<i32>, cosine: Seq<i32>, sine: Seq<i32>, zeros: Seq<i32>, b: int)
    requires
        0 <= b < 64,
        cosine.len() == 64,
        sine.len() == 64,
        zeros.len() == 64,
        zeros[b] == 0,
    ensures
        slot_real(time, cosine, sine)[b] == wrapped(
            slot_real(time, cosine, zeros)[b] + slot_real(time, zeros, sine)[b],
        ),
        slot_imaginary(time, cosine, sine)[b] == wrapped(
            slot_imaginary(time, cosine, zeros)[b] + slot_imaginary(time, zeros, sine)[b],
        ),
{
    let c = dct64(cosine_input(time))[b] as int;
    let s = dst64(sine_input(time))[b] as int;
    let sine_real = turned(s, sine[b] as int);
    let cosine_real = turned(c, cosine[b] as int);
    let sine_imaginary = turned(s, cosine[b] as int);
    let cosine_imaginary = turned(c, sine[b] as int);
    assert(slot_real(time, cosine, zeros)[b] == cosine_real && slot_imaginary(time, cosine, zeros)[b] == sine_imaginary)
        by {
        lemma_bands_turn(time, zeros, cosine, b);
    }
    assert(slot_real(time, zeros, sine)[b] == sine_real && slot_imaginary(time, zeros, sine)[b] == wrapped(
        -cosine_imaginary,
    )) by {
        lemma_bands_turn(time, zeros, sine, b);
    }
    assert(slot_real(time, cosine, sine)[b] == wrapped(sine_real + cosine_real) && slot_imaginary(time, cosine, sine)[b]
        == wrapped(sine_imaginary - cosine_imaginary)) by {
        lemma_slot_parts(time, cosine, sine, b);
    }
    assert(wrapped(sine_imaginary) == sine_imaginary) by {
        lemma_turned_facts(s, cosine[b] as int);
    }
    lemma_joined_turns(sine_real, cosine_real, sine_imaginary, cosine_imaginary);
}

} // verus!
