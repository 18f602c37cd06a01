//! Where the blocks of a frame are heard, and how the windows of neighbouring
//! blocks meet.

use vstd::prelude::*;

use crate::fixed::{fraction_product, saturated};
use crate::ics::{WindowSequence, WindowShape};

use super::bank::{lemma_row_sum_silence, overlap_added, silence, BankFields};
use super::error::FilterbankError;
use super::plan::{row_sum, PlanFields};
use super::route::{first_bad_length, short_fault};
use super::window::{fixed_levels, low_overlap, windowed, Levels, ShapeFields, WindowFields};

verus! {

// ---------------------------------------------------------------------------
// Short blocks
// ---------------------------------------------------------------------------

/// A short block on its own: the windowed inverse transform of its spectrum.
pub open spec fn short_block(bank: BankFields, spectrum: Seq<i32>, window: Seq<i32>) -> Seq<i32> {
    windowed(bank.short_plan->0.samples(spectrum), window)
}

/// Whether spectra are those of eight short blocks.
pub open spec fn eight_spectra(spectra: Seq<Vec<i32>>) -> bool {
    spectra.len() == 8 && forall|i: int| 0 <= i < 8 ==> #[trigger] spectra[i]@.len() == 128
}

proof fn lemma_lengths_good(spectra: Seq<Vec<i32>>, index: int)
    requires
        eight_spectra(spectra),
        0 <= index,
    ensures
        first_bad_length(spectra, index) is None,
    decreases 8 - index,
{
    if index < 8 {
        assert(spectra[index]@.len() == 128);
        lemma_lengths_good(spectra, index + 1);
    }
}

/// What a short block adds to a sample of its frame.
pub open spec fn short_part(bank: BankFields, spectra: Seq<Vec<i32>>, window: Seq<i32>, index: int, place: int) -> int {
    if 0 <= index < 8 && 0 <= place < 256 {
        short_block(bank, spectra[index]@, window)[place] as int
    } else {
        0
    }
}

proof fn lemma_short_part(bank: BankFields, spectra: Seq<Vec<i32>>, window: Seq<i32>, index: int, place: int)
    requires
        bank.valid(),
        bank.frame_len == 1024,
    ensures
        -0x7fff_ffff <= short_part(bank, spectra, window, index, place) <= 0x7fff_ffff,
{
    if 0 <= index < 8 && 0 <= place < 256 {
        let samples = bank.short_plan->0.samples(spectra[index]@);
        assert(samples.len() == 256);
        assert(windowed(samples, window)[place] == saturated(
            fraction_product(samples[place] as int, window[place] as int),
        ) as i32);
    }
}

proof fn lemma_first_blocks(bank: BankFields, spectra: Seq<Vec<i32>>, window: Seq<i32>, count: int, i: int)
    requires
        bank.valid(),
        bank.frame_len == 1024,
        0 <= count <= 8,
        0 <= i < 2048,
    ensures
        bank.short_blocks(spectra, window, count).len() == 2048,
        ({
            let index = (i - 448) / 128;
            let place = (i - 448) % 128;
            let newer = if index < count {
                short_part(bank, spectra, window, index, place)
            } else {
                0
            };
            let older = if index - 1 < count {
                short_part(bank, spectra, window, index - 1, place + 128)
            } else {
                0
            };
            bank.short_blocks(spectra, window, count)[i] == saturated(older + newer)
        }),
    decreases count,
{
    let index = (i - 448) / 128;
    let place = (i - 448) % 128;
    if count > 0 {
        lemma_first_blocks(bank, spectra, window, count - 1, i);
        lemma_short_part(bank, spectra, window, index, place);
        lemma_short_part(bank, spectra, window, index - 1, place + 128);
        let block = short_block(bank, spectra[count - 1]@, window);
        assert(block.len() == 256);
        let offset = 448 + 128 * (count - 1);
        if index == count - 1 {
            assert(i - offset == place);
        } else if index == count {
            assert(i - offset == place + 128);
        } else {
            assert(!(offset <= i < offset + 256));
        }
    }
}

/// Eight short blocks are heard one behind the other, in the order of their
/// spectra: the first begins at sample 448 of the block, every further one 128
/// samples later, and each lasts for 256 samples, so that it overlaps with the
/// second half of the one before. The first 1024 samples are played over what was
/// left of the block before, and the others are left for the next frame.
pub proof fn lemma_short_blocks_in_order(
    bank: BankFields,
    spectra: Seq<Vec<i32>>,
    shape: WindowShape,
    window: Seq<i32>,
    result: Result<Vec<i32>, FilterbankError>,
    next: BankFields,
)
    requires
        bank.valid(),
        bank.frame_len == 1024,
        eight_spectra(spectra),
        bank.windows.short.window(shape, 256, fixed_levels()) == Ok::<Seq<i32>, FilterbankError>(window),
        bank.plays(bank.eight_short_block(spectra, shape), shape, result, next),
    ensures
        result is Ok,
        result->Ok_0@.len() == 1024,
        next.overlap.len() == 1024,
        next.previous_window_shape == shape,
        forall|i: int|
            0 <= i < 1024 ==> {
                let index = (i - 448) / 128;
                let place = (i - 448) % 128;
                #[trigger] result->Ok_0@[i] == saturated(
                    bank.overlap[i] + saturated(
                        short_part(bank, spectra, window, index - 1, place + 128) + short_part(
                            bank,
                            spectra,
                            window,
                            index,
                            place,
                        ),
                    ),
                )
            },
        forall|i: int|
            0 <= i < 1024 ==> {
                let index = (i + 576) / 128;
                let place = (i + 576) % 128;
                #[trigger] next.overlap[i] == saturated(
                    short_part(bank, spectra, window, index - 1, place + 128) + short_part(
                        bank,
                        spectra,
                        window,
                        index,
                        place,
                    ),
                )
            },
{
    lemma_lengths_good(spectra, 0);
    assert(short_fault(bank.frame_len, spectra) is None);
    let block = bank.short_blocks(spectra, window, 8);
    assert(bank.eight_short_block(spectra, shape) == Ok::<Seq<i32>, FilterbankError>(block));
    lemma_first_blocks(bank, spectra, window, 8, 0);
    assert forall|i: int| 0 <= i < 2048 implies #[trigger] block[i] == saturated(
        short_part(bank, spectra, window, (i - 448) / 128 - 1, (i - 448) % 128 + 128) + short_part(
            bank,
            spectra,
            window,
            (i - 448) / 128,
            (i - 448) % 128,
        ),
    ) by {
        lemma_first_blocks(bank, spectra, window, 8, i);
    }
    let samples = result->Ok_0@;
    assert(samples == overlap_added(block, bank.overlap));
    assert forall|i: int| 0 <= i < 1024 implies #[trigger] samples[i] == saturated(bank.overlap[i] + block[i]) by {
    }
    assert forall|i: int| 0 <= i < 1024 implies #[trigger] next.overlap[i] == block[1024 + i] by {
    }
}

proof fn lemma_silent_short_block(bank: BankFields, window: Seq<i32>)
    requires
        bank.valid(),
        bank.frame_len == 1024,
        window.len() == 256,
    ensures
        short_block(bank, silence(128), window) == silence(256),
{
    let plan = bank.short_plan->0;
    let samples = plan.samples(silence(128));
    assert forall|s: int| 0 <= s < 256 implies #[trigger] samples[s] == 0 by {
        lemma_row_sum_silence(plan.kernel, s * 128, 128, 128);
    }
    assert forall|s: int| 0 <= s < 256 implies windowed(samples, window)[s] == 0 by {
        let factor = window[s];
        assert(0 * factor == 0) by (nonlinear_arith);
        assert(samples[s] == 0);
    }
    assert(windowed(samples, window) =~= silence(256));
}

/// Where all short spectra but one are silent, and nothing is left of the block
/// before, that one is heard at its place and nowhere else: spectrum `k` in the 256
/// samples from `448 + 128 k` on, of which those from 1024 on are left for the next
/// frame.
pub proof fn lemma_one_short_block(
    bank: BankFields,
    spectra: Seq<Vec<i32>>,
    k: int,
    shape: WindowShape,
    window: Seq<i32>,
    result: Result<Vec<i32>, FilterbankError>,
    next: BankFields,
)
    requires
        bank.valid(),
        bank.frame_len == 1024,
        bank.overlap == silence(1024),
        eight_spectra(spectra),
        0 <= k < 8,
        forall|i: int| 0 <= i < 8 && i != k ==> #[trigger] spectra[i]@ == silence(128),
        bank.windows.short.window(shape, 256, fixed_levels()) == Ok::<Seq<i32>, FilterbankError>(window),
        bank.plays(bank.eight_short_block(spectra, shape), shape, result, next),
    ensures
        result is Ok,
        ({
            let played = result->Ok_0@ + next.overlap;
            let block = short_block(bank, spectra[k]@, window);
            let start = 448 + 128 * k;
            &&& played.len() == 2048
            &&& forall|i: int| 0 <= i < 256 ==> played[start + i] == #[trigger] block[i]
            &&& forall|i: int| 0 <= i < start || start + 256 <= i < 2048 ==> #[trigger] played[i] == 0
        }),
{
    lemma_short_blocks_in_order(bank, spectra, shape, window, result, next);
    assert(window.len() == 256) by {
        assert(bank.windows.short.fit(256));
    }
    lemma_silent_short_block(bank, window);
    let played = result->Ok_0@ + next.overlap;
    let block = short_block(bank, spectra[k]@, window);
    let start = 448 + 128 * k;
    assert(block.len() == 256);
    assert forall|index: int, place: int| index != k implies #[trigger] short_part(bank, spectra, window, index, place) == 0 by {
        if 0 <= index < 8 && 0 <= place < 256 {
            assert(spectra[index]@ == silence(128));
        }
    }
    assert forall|i: int| 0 <= i < 2048 implies #[trigger] played[i] == (if start <= i < start + 256 {
        block[i - start] as int
    } else {
        0
    }) by {
        let index = (i - 448) / 128;
        let place = (i - 448) % 128;
        lemma_short_part(bank, spectra, window, index, place);
        lemma_short_part(bank, spectra, window, index - 1, place + 128);
        if i < 1024 {
            assert(played[i] == result->Ok_0@[i]);
        } else {
            assert(played[i] == next.overlap[i - 1024]);
            assert((i - 1024) + 576 == i - 448);
        }
        if index == k {
            assert(i - start == place);
        } else if index == k + 1 {
            assert(i - start == place + 128);
        } else {
            assert(!(start <= i < start + 256));
        }
    }
    assert forall|i: int| 0 <= i < 256 implies played[start + i] == #[trigger] block[i] by {
        assert(played[start + i] == block[start + i - start]);
    }
}

// ---------------------------------------------------------------------------
// Long blocks
// ---------------------------------------------------------------------------

/// Two long blocks overlap: what the first one leaves is played under the beginning
/// of the second.
pub proof fn lemma_long_blocks_overlap(
    bank: BankFields,
    first: Result<Seq<i32>, FilterbankError>,
    first_shape: WindowShape,
    first_result: Result<Vec<i32>, FilterbankError>,
    between: BankFields,
    second: Result<Seq<i32>, FilterbankError>,
    second_shape: WindowShape,
    second_result: Result<Vec<i32>, FilterbankError>,
    next: BankFields,
)
    requires
        bank.valid(),
        first is Ok,
        second is Ok,
        first->Ok_0.len() == 2 * bank.frame_len,
        second->Ok_0.len() == 2 * bank.frame_len,
        bank.plays(first, first_shape, first_result, between),
        between.plays(second, second_shape, second_result, next),
    ensures
        second_result is Ok,
        second_result->Ok_0@.len() == bank.frame_len,
        forall|i: int|
            0 <= i < bank.frame_len ==> #[trigger] second_result->Ok_0@[i] == saturated(
                first->Ok_0[bank.frame_len + i] + second->Ok_0[i],
            ),
        between.previous_window_shape == first_shape,
{
    let samples = second_result->Ok_0@;
    assert(samples == overlap_added(second->Ok_0, between.overlap));
    assert forall|i: int| 0 <= i < bank.frame_len implies #[trigger] samples[i] == saturated(
        first->Ok_0[bank.frame_len + i] + second->Ok_0[i],
    ) by {
        assert(between.overlap[i] == first->Ok_0[bank.frame_len + i]);
    }
}

/// Whether a window is the same read from either end.
pub open spec fn mirrored<T>(window: Seq<T>) -> bool {
    forall|i: int| 0 <= i < window.len() ==> #[trigger] window[i] == window[window.len() - 1 - i]
}

/// Whether the windows of all shapes are the same read from either end.
pub open spec fn shapes_mirrored<T>(shapes: ShapeFields<T>) -> bool {
    mirrored(shapes.sine) && mirrored(shapes.kbd) && mirrored(shapes.slope)
}

/// A window of a shape whose slopes are mirrored is mirrored.
pub proof fn lemma_window_mirrored<T>(shapes: ShapeFields<T>, shape: WindowShape, len: int, levels: Levels<T>)
    requires
        shapes.fit(len),
        len >= 0,
        shapes_mirrored(shapes),
    ensures
        shapes.window(shape, len, levels) matches Ok(window) ==> mirrored(window) && window.len() == len,
{
    match shape {
        WindowShape::LowOverlap => if len > 0 && len % 8 == 0 {
            let window = low_overlap(len, shapes.slope, levels);
            let slope = len / 2 / 4;
            let zero = (len / 2 - slope) / 2;
            assert forall|i: int| 0 <= i < len implies #[trigger] window[i] == window[len - 1 - i] by {
                if zero <= i < zero + slope {
                    assert(shapes.slope[i - zero] == shapes.slope[2 * slope - 1 - (i - zero)]);
                } else if len - zero - slope <= i < len - zero {
                    let k = slope + i - (len - zero - slope);
                    assert(shapes.slope[k] == shapes.slope[2 * slope - 1 - k]);
                }
            }
        },
        _ => {},
    }
}

/// The window of a long block falls as the one of the next long block rises, also
/// where the shape changes between them: the second half of the one, read
/// backwards, is the first half of the other.
pub proof fn lemma_long_windows_meet<T>(
    windows: WindowFields<T>,
    frame_len: int,
    first_sequence: WindowSequence,
    earlier_shape: WindowShape,
    first_shape: WindowShape,
    second_sequence: WindowSequence,
    second_shape: WindowShape,
    levels: Levels<T>,
    i: int,
)
    requires
        windows.fit(frame_len),
        shapes_mirrored(windows.long),
        first_sequence is OnlyLong || first_sequence is LongStop,
        second_sequence is OnlyLong || second_sequence is LongStart,
        windows.block_window(frame_len, first_sequence, earlier_shape, first_shape, levels) is Ok,
        windows.block_window(frame_len, second_sequence, first_shape, second_shape, levels) is Ok,
        0 <= i < frame_len,
    ensures
        windows.block_window(frame_len, first_sequence, earlier_shape, first_shape, levels)->Ok_0[2 * frame_len - 1 - i]
            == windows.block_window(frame_len, second_sequence, first_shape, second_shape, levels)->Ok_0[i],
{
    lemma_window_mirrored(windows.long, first_shape, 2 * frame_len, levels);
    lemma_window_mirrored(windows.long, earlier_shape, 2 * frame_len, levels);
    let long = windows.long.window(first_shape, 2 * frame_len, levels)->Ok_0;
    assert(long[i] == long[2 * frame_len - 1 - i]);
}

/// Behind a start window, short blocks begin; in front of a stop window, they end.
/// The window of the first short block rises where the start window falls, and the
/// stop window rises where that of the last short block falls: at samples 448 to 576
/// of the frame. Before, the long block is at full level and the short ones silent,
/// and the other way round behind.
pub proof fn lemma_short_windows_meet<T>(
    windows: WindowFields<T>,
    earlier_shape: WindowShape,
    shape: WindowShape,
    levels: Levels<T>,
    i: int,
)
    requires
        windows.fit(1024),
        shapes_mirrored(windows.short),
        windows.block_window(1024, WindowSequence::LongStart, earlier_shape, shape, levels) is Ok,
        windows.block_window(1024, WindowSequence::LongStop, shape, earlier_shape, levels) is Ok,
        0 <= i < 1024,
    ensures
        ({
            let start = windows.block_window(1024, WindowSequence::LongStart, earlier_shape, shape, levels)->Ok_0;
            let stop = windows.block_window(1024, WindowSequence::LongStop, shape, earlier_shape, levels)->Ok_0;
            let short = windows.short.window(shape, 256, levels)->Ok_0;
            &&& start[2047 - i] == stop[i]
            &&& i < 448 ==> start[1024 + i] == levels.one && stop[i] == levels.zero
            &&& 448 <= i < 576 ==> start[1024 + i] == short[128 + (i - 448)] && stop[i]
                == short[i - 448]
            &&& 576 <= i ==> start[1024 + i] == levels.zero && stop[i] == levels.one
        }),
{
    lemma_window_mirrored(windows.short, shape, 256, levels);
    let short = windows.short.window(shape, 256, levels)->Ok_0;
    if 448 <= i < 576 {
        assert(short[i - 448] == short[255 - (i - 448)]);
    }
    if 448 <= 1023 - i < 576 {
        assert(short[1023 - i - 448] == short[255 - (1023 - i - 448)]);
    }
}

// ---------------------------------------------------------------------------
// The inverse transform
// ---------------------------------------------------------------------------

proof fn lemma_row_sum_line(kernel: Seq<i32>, row: int, count: int, spectrum: Seq<i32>, line: int)
    requires
        0 <= count <= spectrum.len(),
        0 <= line < spectrum.len(),
        forall|i: int| 0 <= i < spectrum.len() && i != line ==> #[trigger] spectrum[i] == 0,
    ensures
        row_sum(spectrum, kernel, row, count) == if line < count {
            fraction_product(kernel[row + line] as int, spectrum[line] as int)
        } else {
            0
        },
    decreases count,
{
    if count > 0 {
        lemma_row_sum_line(kernel, row, count - 1, spectrum, line);
        if count - 1 != line {
            let factor = kernel[row + count - 1];
            assert(spectrum[count - 1] == 0);
            assert(factor * 0 == 0) by (nonlinear_arith);
        }
    }
}

/// A single line of a spectrum gives its own column of the kernel, as large as the
/// line.
pub proof fn lemma_line_samples(plan: PlanFields, spectrum: Seq<i32>, line: int, s: int)
    requires
        plan.valid(),
        spectrum.len() == plan.n,
        0 <= line < plan.n,
        0 <= s < 2 * plan.n,
        forall|i: int| 0 <= i < spectrum.len() && i != line ==> #[trigger] spectrum[i] == 0,
    ensures
        plan.samples(spectrum)[s] == saturated((spectrum[line] * plan.kernel[s * plan.n + line]) / 0x8000_0000),
{
    lemma_row_sum_line(plan.kernel, s * plan.n, plan.n, spectrum, line);
    let a = spectrum[line] as int;
    let b = plan.kernel[s * plan.n + line] as int;
    assert(a * b == b * a) by (nonlinear_arith);
}

/// The lines of a spectrum add up: where two spectra have no line in common, the
/// sums of both are those of each together.
pub proof fn lemma_lines_add_up(first: Seq<i32>, second: Seq<i32>, both: Seq<i32>, kernel: Seq<i32>, row: int, count: int)
    requires
        0 <= count <= both.len(),
        first.len() == both.len(),
        second.len() == both.len(),
        forall|i: int|
            0 <= i < both.len() ==> (#[trigger] both[i] == first[i] && second[i] == 0) || (both[i] == second[i] && first[i]
                == 0),
    ensures
        row_sum(both, kernel, row, count) == row_sum(first, kernel, row, count) + row_sum(second, kernel, row, count),
    decreases count,
{
    if count > 0 {
        lemma_lines_add_up(first, second, both, kernel, row, count - 1);
        let factor = kernel[row + count - 1];
        assert(factor * 0 == 0) by (nonlinear_arith);
        assert(both[count - 1] == first[count - 1] || both[count - 1] == second[count - 1]);
    }
}

/// A sample under a window value.
pub open spec fn under(sample: int, level: int) -> int {
    saturated((sample * level) / 0x8000_0000)
}

/// Under silence nothing is heard, and under the full level a sample is heard as it
/// is, but for the last place.
pub proof fn lemma_levels(sample: i32)
    ensures
        under(sample as int, 0) == 0,
        sample > i32::MIN ==> sample - 1 <= under(sample as int, 0x7fff_ffff) <= sample + 1,
{
    let s = sample as int;
    assert(s * 0 == 0) by (nonlinear_arith);
    assert(s * 0x7fff_ffff == s * 0x8000_0000 - s) by (nonlinear_arith);
    assert(s - 1 <= (s * 0x8000_0000 - s) / 0x8000_0000 <= s + 1);
}

/// A long block rises with the window of the shape before, and falls with that of its
/// own shape. Behind a start block, short blocks follow: it stays at full level, falls
/// with the second half of a short window at 1472 to 1600, and is silent then. A stop
/// block is the other way round, and rises at 448 to 576.
pub proof fn lemma_long_block_window(
    bank: BankFields,
    spectrum: Seq<i32>,
    sequence: WindowSequence,
    shape: WindowShape,
    block: Seq<i32>,
    i: int,
)
    requires
        bank.valid(),
        bank.long_block(spectrum, sequence, shape) == Ok::<Seq<i32>, FilterbankError>(block),
        0 <= i < 2 * bank.frame_len,
    ensures
        ({
            let n = bank.frame_len;
            let sample = bank.plan.samples(spectrum)[i] as int;
            let levels = fixed_levels();
            let rise = bank.windows.long.window(bank.previous_window_shape, 2 * n, levels)->Ok_0;
            let fall = bank.windows.long.window(shape, 2 * n, levels)->Ok_0;
            let short_rise = bank.windows.short.window(bank.previous_window_shape, 256, levels)->Ok_0;
            let short_fall = bank.windows.short.window(shape, 256, levels)->Ok_0;
            &&& block.len() == 2 * n
            &&& sequence is OnlyLong || sequence is LongStart || sequence is LongStop
            &&& !(sequence is LongStop) && i < n ==> block[i] == under(sample, rise[i] as int)
            &&& !(sequence is LongStart) && n <= i ==> block[i] == under(sample, fall[i] as int)
            &&& sequence is LongStart ==> n == 1024
            &&& sequence is LongStart && 1024 <= i < 1472 ==> block[i] == under(sample, 0x7fff_ffff)
            &&& sequence is LongStart && 1472 <= i < 1600 ==> block[i] == under(sample, short_fall[i - 1344] as int)
            &&& sequence is LongStart && 1600 <= i ==> block[i] == 0
            &&& sequence is LongStop ==> n == 1024
            &&& sequence is LongStop && i < 448 ==> block[i] == 0
            &&& sequence is LongStop && 448 <= i < 576 ==> block[i] == under(sample, short_rise[i - 448] as int)
            &&& sequence is LongStop && 576 <= i < 1024 ==> block[i] == under(sample, 0x7fff_ffff)
        }),
{
    let n = bank.frame_len;
    let sample = bank.plan.samples(spectrum)[i] as int;
    lemma_levels(sample as i32);
    let window = bank.windows.block_window(n, sequence, bank.previous_window_shape, shape, fixed_levels())->Ok_0;
    assert(block == windowed(bank.plan.samples(spectrum), window));
    assert(block[i] == under(sample, window[i] as int));
    assert(bank.windows.long.fit(2 * n));
    let rise = bank.windows.long.window(bank.previous_window_shape, 2 * n, fixed_levels())->Ok_0;
    let fall = bank.windows.long.window(shape, 2 * n, fixed_levels())->Ok_0;
    assert(rise.len() == 2 * n && fall.len() == 2 * n);
}

/// In a sine window, both halves of a long block are under the sine.
pub proof fn lemma_sine_block_window(bank: BankFields, spectrum: Seq<i32>, block: Seq<i32>, i: int)
    requires
        bank.valid(),
        bank.sine_block(spectrum) == Ok::<Seq<i32>, FilterbankError>(block),
        0 <= i < 2 * bank.frame_len,
    ensures
        block.len() == 2 * bank.frame_len,
        block[i] == under(bank.plan.samples(spectrum)[i] as int, bank.windows.long.sine[i] as int),
{
}

} // verus!
