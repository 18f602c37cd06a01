//! Band widths in geometric progression.

use vstd::prelude::*;

use super::error::LdSbrError;
use super::log2::{lemma_log2_monotone, log2_of, log2_q25};

verus! {

/// A value of twenty-four fractional bits scaled `count` times by a factor of
/// thirty fractional bits, cut to a multiple of four each time.
pub open spec fn scaled_down(value: int, factor: int, count: nat) -> int
    decreases count,
{
    if count == 0 {
        value
    } else {
        (scaled_down(value, factor, (count - 1) as nat) * factor) / 0x1_0000_0000 * 4
    }
}

/// Searching the factor that leads from `stop` to `start` in `count` steps: the
/// factor moves by `step`, and the step is halved when the direction changes.
pub open spec fn search_factor(
    start: int,
    stop: int,
    count: nat,
    factor: int,
    step: int,
    rising: bool,
    iteration: int,
) -> int
    decreases 101 - iteration,
{
    if step <= 0 || iteration > 100 {
        factor
    } else if scaled_down(stop, factor, count) < start {
        let next = if rising {
            step
        } else {
            step / 2
        };
        search_factor(start, stop, count, factor + next, next, true, iteration + 1)
    } else {
        let next = if rising {
            step / 2
        } else {
            step
        };
        search_factor(start, stop, count, factor - next, next, false, iteration + 1)
    }
}

/// The factor from one band border to the next lower one, in fifteen fractional
/// bits.
pub open spec fn band_factor(start: u8, stop: u8, count: nat) -> int {
    let factor = search_factor(
        start as int * 0x100_0000,
        stop as int * 0x100_0000,
        count,
        0x2000_0000,
        0x1000_0000,
        true,
        0,
    ) / 0x8000;
    if factor < 0x7fff {
        factor
    } else {
        0x7fff
    }
}

/// A border of eight fractional bits, `index` borders below `stop`.
pub open spec fn exact_border(stop: u8, factor: int, index: nat) -> int
    decreases index,
{
    if index == 0 {
        stop as int * 256
    } else {
        (exact_border(stop, factor, (index - 1) as nat) * factor * 2) / 0x1_0000
    }
}

/// The rounded border, `index` borders below `stop`.
pub open spec fn rounded_border(stop: u8, factor: int, index: nat) -> int {
    (exact_border(stop, factor, index) + 128) / 256
}

/// The widths of `count` bands below `stop`, lowest first.
pub open spec fn geometric_widths(start: u8, stop: u8, count: nat) -> Seq<u8> {
    let factor = band_factor(start, stop, count);
    Seq::new(
        count,
        |i: int|
            (rounded_border(stop, factor, (count - 1 - i) as nat) - rounded_border(stop, factor, (count - i) as nat)) as u8,
    )
}

/// Whether no band of a sequence is empty.
pub open spec fn all_positive(widths: Seq<u8>) -> bool {
    forall|i: int| 0 <= i < widths.len() ==> #[trigger] widths[i] > 0
}

/// The widths of `count` bands from `start` to `stop`, where none is empty.
pub open spec fn band_widths(start: u8, stop: u8, count: nat) -> Result<Seq<u8>, LdSbrError> {
    if count == 0 || stop <= start || !all_positive(geometric_widths(start, stop, count)) {
        Err(LdSbrError::InvalidFrequencyRange)
    } else {
        Ok(geometric_widths(start, stop, count))
    }
}

/// The sum of a sequence of widths.
pub open spec fn width_sum(widths: Seq<u8>) -> int
    decreases widths.len(),
{
    if widths.len() == 0 {
        0
    } else {
        width_sum(widths.drop_last()) + widths.last()
    }
}

proof fn lemma_scaled_bounds(value: int, factor: int, count: nat)
    requires
        0 <= value,
        value % 4 == 0,
        0 <= factor <= 0x4000_0000,
    ensures
        0 <= scaled_down(value, factor, count) <= value,
        factor == 0x4000_0000 ==> scaled_down(value, factor, count) == value,
    decreases count,
{
    if count > 0 {
        let before = scaled_down(value, factor, (count - 1) as nat);
        lemma_scaled_bounds(value, factor, (count - 1) as nat);
        assert(0 <= before * factor <= before * 0x4000_0000) by (nonlinear_arith)
            requires
                0 <= before,
                0 <= factor <= 0x4000_0000,
        ;
        if factor == 0x4000_0000 {
            assert(before * factor == before * 0x4000_0000);
        }
    }
}

/// Borders lie between zero and the top one, and do not rise downwards.
pub proof fn lemma_exact_bounds(stop: u8, factor: int, index: nat)
    requires
        0 <= factor <= 0x7fff,
    ensures
        0 <= exact_border(stop, factor, index) <= stop * 256,
        index > 0 ==> exact_border(stop, factor, index) <= exact_border(stop, factor, (index - 1) as nat),
        0 <= rounded_border(stop, factor, index) <= stop,
    decreases index,
{
    if index > 0 {
        lemma_exact_bounds(stop, factor, (index - 1) as nat);
        let before = exact_border(stop, factor, (index - 1) as nat);
        assert(0 <= before * factor <= before * 0x7fff) by (nonlinear_arith)
            requires
                0 <= before,
                0 <= factor <= 0x7fff,
        ;
    }
}

/// The widths of bands below `stop` sum up to at most `stop`.
pub proof fn lemma_geometric_sum(start: u8, stop: u8, count: nat, factor: int, taken: nat)
    requires
        factor == band_factor(start, stop, count),
        0 <= factor,
        taken <= count,
    ensures
        width_sum(geometric_widths(start, stop, count).take(taken as int)) == rounded_border(
            stop,
            factor,
            (count - taken) as nat,
        ) - rounded_border(stop, factor, count),
    decreases taken,
{
    let widths = geometric_widths(start, stop, count);
    if taken > 0 {
        lemma_geometric_sum(start, stop, count, factor, (taken - 1) as nat);
        assert(widths.take(taken as int).drop_last() =~= widths.take(taken - 1));
        lemma_exact_bounds(stop, factor, (count - taken) as nat);
        lemma_exact_bounds(stop, factor, (count - taken + 1) as nat);
        assert(widths[taken - 1] == rounded_border(stop, factor, (count - taken) as nat) - rounded_border(
            stop,
            factor,
            (count - taken + 1) as nat,
        ));
    } else {
        assert(widths.take(0) =~= Seq::<u8>::empty());
    }
}

/// The factor that the search ends with lies between zero and one.
proof fn lemma_search_bounds(
    start: int,
    stop: int,
    count: nat,
    factor: int,
    step: int,
    rising: bool,
    iteration: int,
    multiple: int,
)
    requires
        0 < start < stop,
        stop % 4 == 0,
        count >= 1,
        0 <= factor <= 0x4000_0000,
        step >= 0,
        step > 0 ==> factor == multiple * step && exists|power: int| #[trigger] is_power(step, power),
    ensures
        0 <= search_factor(start, stop, count, factor, step, rising, iteration) <= 0x4000_0000,
    decreases 101 - iteration,
{
    if step > 0 && iteration <= 100 {
        let power = choose|power: int| #[trigger] is_power(step, power);
        let below = scaled_down(stop, factor, count) < start;
        lemma_scaled_bounds(stop, factor, count);
        let next = if below == rising {
            step
        } else {
            step / 2
        };
        lemma_half_power(step, power);
        if below {
            assert(factor < 0x4000_0000);
            assert(factor + step <= 0x4000_0000) by (nonlinear_arith)
                requires
                    factor == multiple * step,
                    factor < 0x4000_0000,
                    0x4000_0000 == power * step,
                    step > 0,
            ;
            let grown = if below == rising {
                multiple + 1
            } else {
                2 * multiple + 1
            };
            if next > 0 {
                assert(factor + next == grown * next) by (nonlinear_arith)
                    requires
                        factor == multiple * step,
                        (next == step && grown == multiple + 1) || (step == 2 * next && grown == 2 * multiple + 1),
                ;
            }
            lemma_search_bounds(start, stop, count, factor + next, next, true, iteration + 1, grown);
        } else {
            if factor == 0 {
                lemma_scaled_zero(stop, count);
            }
            assert(factor >= step) by (nonlinear_arith)
                requires
                    factor == multiple * step,
                    factor > 0,
                    step > 0,
            ;
            let shrunk = if below == rising {
                multiple - 1
            } else {
                2 * multiple - 1
            };
            if next > 0 {
                assert(factor - next == shrunk * next) by (nonlinear_arith)
                    requires
                        factor == multiple * step,
                        (next == step && shrunk == multiple - 1) || (step == 2 * next && shrunk == 2 * multiple - 1),
                ;
            }
            lemma_search_bounds(start, stop, count, factor - next, next, false, iteration + 1, shrunk);
        }
    }
}

proof fn lemma_scaled_zero(value: int, count: nat)
    requires
        count >= 1,
    ensures
        scaled_down(value, 0, count) == 0,
{
    let before = scaled_down(value, 0, (count - 1) as nat);
    assert(before * 0 == 0);
}

/// Whether a step is a power of two that divides one in thirty fractional bits.
spec fn is_power(step: int, quotient: int) -> bool {
    &&& quotient * step == 0x4000_0000
    &&& step == 1 || step % 2 == 0
    &&& exists|exponent: nat| step == #[trigger] vstd::arithmetic::power2::pow2(exponent)
}

proof fn lemma_half_power(step: int, quotient: int)
    requires
        step > 0,
        is_power(step, quotient),
    ensures
        step / 2 > 0 ==> step == 2 * (step / 2) && is_power(step / 2, 2 * quotient),
{
    let exponent = choose|exponent: nat| step == #[trigger] vstd::arithmetic::power2::pow2(exponent);
    if step / 2 > 0 {
        vstd::arithmetic::power2::lemma2_to64();
        assert(exponent > 0);
        vstd::arithmetic::power2::lemma_pow2_unfold(exponent);
        let lower = (exponent - 1) as nat;
        assert(step / 2 == vstd::arithmetic::power2::pow2(lower));
        if lower > 0 {
            vstd::arithmetic::power2::lemma_pow2_unfold(lower);
        }
        assert((2 * quotient) * (step / 2) == 0x4000_0000) by (nonlinear_arith)
            requires
                quotient * step == 0x4000_0000,
                step == 2 * (step / 2),
        ;
    }
}

proof fn lemma_first_power()
    ensures
        is_power(0x1000_0000, 4),
{
    vstd::arithmetic::power2::lemma2_to64();
    assert(0x1000_0000 == vstd::arithmetic::power2::pow2(28));
}

/// The band factor lies between zero and one.
pub proof fn lemma_band_factor(start: u8, stop: u8, count: nat)
    requires
        1 <= start < stop,
        count >= 1,
    ensures
        0 <= band_factor(start, stop, count) <= 0x7fff,
{
    lemma_first_power();
    lemma_search_bounds(
        start as int * 0x100_0000,
        stop as int * 0x100_0000,
        count,
        0x2000_0000,
        0x1000_0000,
        true,
        0,
        2,
    );
}

/// Searches the factor from one border to the next.
fn find_factor(start: u8, stop: u8, count: usize) -> (factor: u64)
    requires
        1 <= start < stop,
        count >= 1,
    ensures
        factor == search_factor(
            start as int * 0x100_0000,
            stop as int * 0x100_0000,
            count as nat,
            0x2000_0000,
            0x1000_0000,
            true,
            0,
        ),
        factor <= 0x4000_0000,
{
    let start_q24: u64 = start as u64 * 0x100_0000;
    let stop_q24: u64 = stop as u64 * 0x100_0000;
    let ghost low = start as int * 0x100_0000;
    let ghost high = stop as int * 0x100_0000;
    let mut factor: u64 = 0x2000_0000;
    let mut step: u64 = 0x1000_0000;
    let mut rising: bool = true;
    let mut iteration: u64 = 0;
    let ghost mut multiple: int = 2;
    proof {
        lemma_first_power();
        lemma_search_bounds(low, high, count as nat, 0x2000_0000, 0x1000_0000, true, 0, 2);
    }
    while step > 0 && iteration <= 100
        invariant
            1 <= start < stop,
            count >= 1,
            low == start as int * 0x100_0000,
            high == stop as int * 0x100_0000,
            start_q24 == low,
            stop_q24 == high,
            factor <= 0x4000_0000,
            iteration <= 101,
            step > 0 ==> factor == multiple * step && exists|power: int| #[trigger] is_power(step as int, power),
            search_factor(low, high, count as nat, factor as int, step as int, rising, iteration as int)
                == search_factor(low, high, count as nat, 0x2000_0000, 0x1000_0000, true, 0),
            search_factor(low, high, count as nat, 0x2000_0000, 0x1000_0000, true, 0) <= 0x4000_0000,
        decreases 101 - iteration,
    {
        let mut value: u64 = stop_q24;
        let mut done: usize = 0;
        while done < count
            invariant
                done <= count,
                high == stop as int * 0x100_0000,
                stop_q24 == high,
                factor <= 0x4000_0000,
                value == scaled_down(high, factor as int, done as nat),
                value <= stop_q24,
            decreases count - done,
        {
            proof {
                lemma_scaled_bounds(high, factor as int, (done + 1) as nat);
            }
            assert(value * factor <= 0xff00_0000 * 0x4000_0000) by (nonlinear_arith)
                requires
                    value <= 0xff00_0000,
                    factor <= 0x4000_0000,
            ;
            value = value * factor / 0x1_0000_0000 * 4;
            done = done + 1;
        }
        proof {
            let power = choose|power: int| #[trigger] is_power(step as int, power);
            lemma_half_power(step as int, power);
            lemma_scaled_bounds(high, factor as int, count as nat);
            if value < start_q24 {
                assert(factor + step <= 0x4000_0000) by (nonlinear_arith)
                    requires
                        factor == multiple * step,
                        factor < 0x4000_0000,
                        0x4000_0000 == power * step,
                        step > 0,
                ;
            } else {
                if factor == 0 {
                    lemma_scaled_zero(high, count as nat);
                }
                assert(factor >= step) by (nonlinear_arith)
                    requires
                        factor == multiple * step,
                        factor > 0,
                        step > 0,
                ;
            }
        }
        let ghost old_step = step as int;
        let ghost old_factor = factor as int;
        let ghost old_multiple = multiple;
        if value < start_q24 {
            if !rising {
                step = step / 2;
            }
            proof {
                multiple = if rising {
                    multiple + 1
                } else {
                    2 * multiple + 1
                };
                if step > 0 {
                    assert(old_factor + step == multiple * step) by (nonlinear_arith)
                        requires
                            old_factor == old_multiple * old_step,
                            (step == old_step && multiple == old_multiple + 1) || (old_step == 2 * step && multiple == 2
                                * old_multiple + 1),
                    ;
                }
            }
            rising = true;
            factor = factor + step;
        } else {
            if rising {
                step = step / 2;
            }
            proof {
                multiple = if !rising {
                    multiple - 1
                } else {
                    2 * multiple - 1
                };
                if step > 0 {
                    assert(old_factor - step == multiple * step) by (nonlinear_arith)
                        requires
                            old_factor == old_multiple * old_step,
                            (step == old_step && multiple == old_multiple - 1) || (old_step == 2 * step && multiple == 2
                                * old_multiple - 1),
                    ;
                }
            }
            rising = false;
            factor = factor - step;
        }
        iteration = iteration + 1;
    }
    factor
}

/// The widths of `count` bands from `start` to `stop` in geometric progression.
pub fn logarithmic_widths(start: u8, stop: u8, count: usize) -> (result: Result<Vec<u8>, LdSbrError>)
    requires
        1 <= start,
    ensures
        match band_widths(start, stop, count as nat) {
            Ok(widths) => result matches Ok(list) && list@ == widths && widths.len() == count && count >= 1,
            Err(error) => result == Err::<Vec<u8>, LdSbrError>(error),
        },
{
    if count == 0 || stop <= start {
        return Err(LdSbrError::InvalidFrequencyRange);
    }
    let fraction: u64 = find_factor(start, stop, count) / 0x8000;
    let factor: u64 = if fraction < 0x7fff {
        fraction
    } else {
        0x7fff
    };
    let ghost wanted = geometric_widths(start, stop, count as nat);
    let mut reversed: Vec<u8> = Vec::new();
    let mut previous: u64 = stop as u64;
    let mut exact: u64 = stop as u64 * 256;
    while reversed.len() < count
        invariant
            reversed@.len() <= count,
            factor <= 0x7fff,
            factor == band_factor(start, stop, count as nat),
            exact == exact_border(stop, factor as int, reversed@.len()),
            exact <= stop * 256,
            previous == rounded_border(stop, factor as int, reversed@.len()),
            wanted == geometric_widths(start, stop, count as nat),
            forall|i: int| 0 <= i < reversed@.len() ==> #[trigger] reversed@[i] == wanted[count - 1 - i],
        decreases count - reversed@.len(),
    {
        proof {
            lemma_exact_bounds(stop, factor as int, (reversed@.len() + 1) as nat);
            lemma_exact_bounds(stop, factor as int, reversed@.len());
        }
        assert(exact * factor <= 0xff00 * 0x7fff) by (nonlinear_arith)
            requires
                exact <= 0xff00,
                factor <= 0x7fff,
        ;
        exact = exact * factor * 2 / 0x1_0000;
        let current: u64 = (exact + 128) / 256;
        reversed.push((previous - current) as u8);
        previous = current;
    }
    let mut widths: Vec<u8> = Vec::new();
    while widths.len() < count
        invariant
            widths@.len() <= count,
            reversed@.len() == count,
            wanted.len() == count,
            forall|i: int| 0 <= i < reversed@.len() ==> #[trigger] reversed@[i] == wanted[count - 1 - i],
            widths@ == wanted.take(widths@.len() as int),
            all_positive(widths@),
            wanted == geometric_widths(start, stop, count as nat),
            count > 0,
            stop > start,
        decreases count - widths@.len(),
    {
        let index: usize = count - 1 - widths.len();
        let width: u8 = reversed[index];
        assert(width == wanted[widths@.len() as int]);
        if width == 0 {
            assert(!all_positive(wanted));
            return Err(LdSbrError::InvalidFrequencyRange);
        }
        let ghost before = widths@;
        widths.push(width);
        assert(wanted.take((before.len() + 1) as int) =~= before.push(width));
    }
    assert(wanted.take(count as int) =~= wanted);
    Ok(widths)
}

/// The number of bands from `start` to `stop` at a density in fifteen
/// fractional bits of a sixteenth per octave: cut after each multiplication and
/// rounded to an even number.
pub open spec fn density_count(start: u8, stop: u8, density: int, warp: bool) -> int {
    let octaves = (log2_q25(stop) - log2_q25(start)) / 0x2000;
    let bands = (octaves * density * 2) / 0x1_0000;
    let warped = if warp {
        (bands * 25200 * 2) / 0x1_0000
    } else {
        bands
    };
    2 * ((warped + 256) / 512)
}

/// The widths of bands from `start` to `stop` at a density in fifteen fractional
/// bits of a sixteenth per octave. Zero has no octaves to any other band.
pub fn logarithmic_widths_for_density(start: u8, stop: u8, density: i64, warp: bool) -> (result: Result<
    Vec<u8>,
    LdSbrError,
>)
    requires
        start == stop || (1 <= start && 1 <= stop),
        0 <= density <= 0x7f_ffff_ffff,
    ensures
        match band_widths(start, stop, density_count(start, stop, density as int, warp) as nat) {
            Ok(widths) => result matches Ok(list) && list@ == widths && widths.len() >= 1,
            Err(error) => result == Err::<Vec<u8>, LdSbrError>(error),
        },
{
    if stop <= start {
        return Err(LdSbrError::InvalidFrequencyRange);
    }
    proof {
        lemma_log2_monotone(start, stop);
    }
    let octaves: i64 = (log2_of(stop) - log2_of(start)) / 0x2000;
    assert(0 <= octaves * density <= 0x8000 * 0x7f_ffff_ffff) by (nonlinear_arith)
        requires
            0 <= octaves <= 0x8000,
            0 <= density <= 0x7f_ffff_ffff,
    ;
    let mut bands: i64 = octaves * density * 2 / 0x1_0000;
    if warp {
        bands = bands * 25200 * 2 / 0x1_0000;
    }
    let count: usize = (2 * ((bands + 256) / 512)) as usize;
    logarithmic_widths(start, stop, count)
}

} // verus!
