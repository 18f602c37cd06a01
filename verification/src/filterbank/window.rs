//! Window shapes and the windows of block switching.

use vstd::prelude::*;

use crate::fixed::{fraction_product, mul_q31, saturated, FixpDbl, MAXVAL_DBL};
use crate::ics::{WindowSequence, WindowShape};

use super::error::FilterbankError;

verus! {

/// The values of a window where it is silent and where it is flat.
#[derive(Debug, Clone, Copy, PartialEq, Eq)]
pub struct Levels<T> {
    pub zero: T,
    pub one: T,
}

/// The slopes that the windows of one length are made of.
///
/// `sine` and `kbd` are whole windows; the latter exist for 256 and 2048 samples
/// only. `slope` is the sine window of a quarter of the length, which the
/// low-overlap window is made of.
#[derive(Debug, Clone, PartialEq, Eq)]
pub struct ShapeWindows<T> {
    pub sine: Vec<T>,
    pub kbd: Vec<T>,
    pub slope: Vec<T>,
}

/// The model of [`ShapeWindows`].
#[verifier::ext_equal]
pub struct ShapeFields<T> {
    pub sine: Seq<T>,
    pub kbd: Seq<T>,
    pub slope: Seq<T>,
}

impl<T> View for ShapeWindows<T> {
    type V = ShapeFields<T>;

    open spec fn view(&self) -> ShapeFields<T> {
        ShapeFields { sine: self.sine@, kbd: self.kbd@, slope: self.slope@ }
    }
}

/// The windows of long and of short blocks. Those of short blocks are used with
/// frames of 1024 samples only.
#[derive(Debug, Clone, PartialEq, Eq)]
pub struct WindowSet<T> {
    pub long: ShapeWindows<T>,
    pub short: ShapeWindows<T>,
}

/// The model of [`WindowSet`].
#[verifier::ext_equal]
pub struct WindowFields<T> {
    pub long: ShapeFields<T>,
    pub short: ShapeFields<T>,
}

impl<T> View for WindowSet<T> {
    type V = WindowFields<T>;

    open spec fn view(&self) -> WindowFields<T> {
        WindowFields { long: self.long@, short: self.short@ }
    }
}

/// A low-overlap window: silence, a slope, a flat section, a slope, silence.
pub open spec fn low_overlap<T>(len: int, slope_window: Seq<T>, levels: Levels<T>) -> Seq<T> {
    let slope = len / 2 / 4;
    let zero = (len / 2 - slope) / 2;
    Seq::new(
        len as nat,
        |i: int|
            if zero <= i < zero + slope {
                slope_window[i - zero]
            } else if zero + slope <= i < len - zero - slope {
                levels.one
            } else if len - zero - slope <= i < len - zero {
                slope_window[slope + i - (len - zero - slope)]
            } else {
                levels.zero
            },
    )
}

impl<T> ShapeFields<T> {
    /// Whether the slopes are those of windows of a length.
    pub open spec fn fit(self, len: int) -> bool {
        &&& self.sine.len() == len
        &&& (len == 2048 || len == 256 ==> self.kbd.len() == len)
        &&& (len % 8 == 0 ==> self.slope.len() == 2 * (len / 2 / 4))
    }

    /// The window of a shape, or why there is none.
    pub open spec fn window(self, shape: WindowShape, len: int, levels: Levels<T>) -> Result<Seq<T>, FilterbankError> {
        match shape {
            WindowShape::Sine => Ok(self.sine),
            WindowShape::Kbd => if len == 2048 || len == 256 {
                Ok(self.kbd)
            } else {
                Err(FilterbankError::InvalidFrameLength(len as usize))
            },
            WindowShape::LowOverlap => if len == 0 || len % 8 != 0 {
                Err(FilterbankError::InvalidFrameLength(len as usize))
            } else {
                Ok(low_overlap(len, self.slope, levels))
            },
        }
    }
}

impl<T> WindowFields<T> {
    /// Whether the windows are those of a frame length.
    pub open spec fn fit(self, frame_len: int) -> bool {
        self.long.fit(2 * frame_len) && (frame_len == 1024 ==> self.short.fit(256))
    }

    /// The window of a long block in a sequence, or why there is none.
    pub open spec fn block_window(
        self,
        frame_len: int,
        sequence: WindowSequence,
        previous_shape: WindowShape,
        current_shape: WindowShape,
        levels: Levels<T>,
    ) -> Result<Seq<T>, FilterbankError> {
        if frame_len == 0 || frame_len % 2 != 0 {
            Err(FilterbankError::InvalidFrameLength(frame_len as usize))
        } else {
            match self.long.window(previous_shape, 2 * frame_len, levels) {
                Err(error) => Err(error),
                Ok(long_previous) => match self.long.window(current_shape, 2 * frame_len, levels) {
                    Err(error) => Err(error),
                    Ok(long_current) => if sequence is OnlyLong {
                        Ok(long_previous.take(frame_len) + long_current.skip(frame_len))
                    } else if frame_len != 1024 {
                        Err(FilterbankError::InvalidFrameLength(frame_len as usize))
                    } else if sequence is LongStart {
                        Ok(start_window(long_previous, self.short.window(current_shape, 256, levels)->Ok_0, levels))
                    } else if sequence is LongStop {
                        Ok(stop_window(self.short.window(previous_shape, 256, levels)->Ok_0, long_current, levels))
                    } else {
                        Err(FilterbankError::UnsupportedWindowSequence(sequence))
                    },
                },
            }
        }
    }
}

/// The window from long to short blocks.
pub open spec fn start_window<T>(long: Seq<T>, short: Seq<T>, levels: Levels<T>) -> Seq<T> {
    Seq::new(
        2048,
        |i: int|
            if i < 1024 {
                long[i]
            } else if i < 1472 {
                levels.one
            } else if i < 1600 {
                short[128 + i - 1472]
            } else {
                levels.zero
            },
    )
}

/// The window from short to long blocks.
pub open spec fn stop_window<T>(short: Seq<T>, long: Seq<T>, levels: Levels<T>) -> Seq<T> {
    Seq::new(
        2048,
        |i: int|
            if i < 448 {
                levels.zero
            } else if i < 576 {
                short[i - 448]
            } else if i < 1024 {
                levels.one
            } else {
                long[i]
            },
    )
}

/// Samples under a window.
pub open spec fn windowed(samples: Seq<i32>, window: Seq<i32>) -> Seq<i32> {
    Seq::new(
        samples.len(),
        |i: int| saturated(fraction_product(samples[i] as int, window[i] as int)) as i32,
    )
}

/// Multiplies samples with a window of the same length.
pub fn apply_sine_window_q31(samples: &mut [FixpDbl], window: &[FixpDbl])
    requires
        old(samples)@.len() == window@.len(),
    ensures
        final(samples)@ == windowed(old(samples)@, window@),
{
    let mut index: usize = 0;
    while index < samples.len()
        invariant
            index <= samples@.len(),
            samples@.len() == old(samples)@.len(),
            samples@.len() == window@.len(),
            forall|i: int| 0 <= i < index ==> #[trigger] samples@[i] == windowed(old(samples)@, window@)[i],
            forall|i: int| index <= i < samples@.len() ==> #[trigger] samples@[i] == old(samples)@[i],
        decreases samples@.len() - index,
    {
        samples[index] = mul_q31(samples[index], window[index]);
        index = index + 1;
    }
    assert(samples@ =~= windowed(old(samples)@, window@));
}

fn copied<T: Copy>(values: &Vec<T>) -> (copy: Vec<T>)
    ensures
        copy@ == values@,
{
    vstd::slice::slice_to_vec(values.as_slice())
}

/// Makes a low-overlap window from its slopes: three eighths of a frame are
/// silent on each side, a quarter of a frame rises and falls, and what lies
/// between is flat.
pub fn low_overlap_window<T: Copy>(len: usize, slope_window: &Vec<T>, levels: Levels<T>) -> (result: Result<
    Vec<T>,
    FilterbankError,
>)
    requires
        len % 8 == 0 ==> slope_window@.len() == 2 * (len / 2 / 4),
    ensures
        if len == 0 || len % 8 != 0 {
            result == Err::<Vec<T>, FilterbankError>(FilterbankError::InvalidFrameLength(len))
        } else {
            result matches Ok(window) && window@ == low_overlap(len as int, slope_window@, levels)
        },
{
    if len == 0 || len % 8 != 0 {
        return Err(FilterbankError::InvalidFrameLength(len));
    }
    let slope: usize = len / 2 / 4;
    let zero: usize = (len / 2 - slope) / 2;
    let mut window: Vec<T> = Vec::new();
    while window.len() < len
        invariant
            window@.len() <= len,
            len % 8 == 0,
            slope == len / 2 / 4,
            zero == (len / 2 - slope) / 2,
            slope_window@.len() == 2 * slope,
            forall|i: int| 0 <= i < window@.len() ==> #[trigger] window@[i] == low_overlap(len as int, slope_window@, levels)[i],
        decreases len - window@.len(),
    {
        let i: usize = window.len();
        let value: T = if zero <= i && i < zero + slope {
            slope_window[i - zero]
        } else if zero + slope <= i && i < len - zero - slope {
            levels.one
        } else if len - zero - slope <= i && i < len - zero {
            slope_window[slope + (i - (len - zero - slope))]
        } else {
            levels.zero
        };
        window.push(value);
    }
    assert(window@ =~= low_overlap(len as int, slope_window@, levels));
    Ok(window)
}

/// Makes the window of a shape.
pub fn window_for_shape<T: Copy>(shape: WindowShape, len: usize, windows: &ShapeWindows<T>, levels: Levels<T>) -> (result: Result<
    Vec<T>,
    FilterbankError,
>)
    requires
        windows@.fit(len as int),
    ensures
        match windows@.window(shape, len as int, levels) {
            Ok(expected) => result matches Ok(window) && window@ == expected,
            Err(error) => result == Err::<Vec<T>, FilterbankError>(error),
        },
{
    match shape {
        WindowShape::Sine => Ok(copied(&windows.sine)),
        WindowShape::Kbd => {
            if len == 2048 || len == 256 {
                Ok(copied(&windows.kbd))
            } else {
                Err(FilterbankError::InvalidFrameLength(len))
            }
        },
        WindowShape::LowOverlap => {
            low_overlap_window(len, &windows.slope, levels)
        },
    }
}

fn joined_window<T: Copy>(first: &Vec<T>, second: &Vec<T>, frame_len: usize) -> (window: Vec<T>)
    requires
        first@.len() == 2 * frame_len,
        second@.len() == 2 * frame_len,
    ensures
        window@ == first@.take(frame_len as int) + second@.skip(frame_len as int),
{
    let ghost expected = first@.take(frame_len as int) + second@.skip(frame_len as int);
    let mut window: Vec<T> = Vec::new();
    while window.len() < first.len()
        invariant
            window@.len() <= first@.len(),
            first@.len() == 2 * frame_len,
            second@.len() == 2 * frame_len,
            expected == first@.take(frame_len as int) + second@.skip(frame_len as int),
            forall|i: int| 0 <= i < window@.len() ==> #[trigger] window@[i] == expected[i],
        decreases first@.len() - window@.len(),
    {
        let i: usize = window.len();
        if i < frame_len {
            window.push(first[i]);
        } else {
            window.push(second[i]);
        }
    }
    assert(window@ =~= expected);
    window
}

fn made_start_window<T: Copy>(long: &Vec<T>, short: &Vec<T>, levels: Levels<T>) -> (window: Vec<T>)
    requires
        long@.len() == 2048,
        short@.len() == 256,
    ensures
        window@ == start_window(long@, short@, levels),
{
    let mut window: Vec<T> = Vec::new();
    while window.len() < 2048
        invariant
            window@.len() <= 2048,
            long@.len() == 2048,
            short@.len() == 256,
            forall|i: int| 0 <= i < window@.len() ==> #[trigger] window@[i] == start_window(long@, short@, levels)[i],
        decreases 2048 - window@.len(),
    {
        let i: usize = window.len();
        let value: T = if i < 1024 {
            long[i]
        } else if i < 1472 {
            levels.one
        } else if i < 1600 {
            short[128 + (i - 1472)]
        } else {
            levels.zero
        };
        window.push(value);
    }
    assert(window@ =~= start_window(long@, short@, levels));
    window
}

fn made_stop_window<T: Copy>(short: &Vec<T>, long: &Vec<T>, levels: Levels<T>) -> (window: Vec<T>)
    requires
        long@.len() == 2048,
        short@.len() == 256,
    ensures
        window@ == stop_window(short@, long@, levels),
{
    let mut window: Vec<T> = Vec::new();
    while window.len() < 2048
        invariant
            window@.len() <= 2048,
            long@.len() == 2048,
            short@.len() == 256,
            forall|i: int| 0 <= i < window@.len() ==> #[trigger] window@[i] == stop_window(short@, long@, levels)[i],
        decreases 2048 - window@.len(),
    {
        let i: usize = window.len();
        let value: T = if i < 448 {
            levels.zero
        } else if i < 576 {
            short[i - 448]
        } else if i < 1024 {
            levels.one
        } else {
            long[i]
        };
        window.push(value);
    }
    assert(window@ =~= stop_window(short@, long@, levels));
    window
}

/// Makes the window of a long block: its first half follows the block before,
/// its second half leads to the block behind.
pub fn block_switching_window<T: Copy>(
    frame_len: usize,
    sequence: WindowSequence,
    previous_shape: WindowShape,
    current_shape: WindowShape,
    windows: &WindowSet<T>,
    levels: Levels<T>,
) -> (result: Result<Vec<T>, FilterbankError>)
    requires
        2 * frame_len <= usize::MAX,
        frame_len > 0 && frame_len % 2 == 0 ==> windows@.fit(frame_len as int),
    ensures
        match windows@.block_window(frame_len as int, sequence, previous_shape, current_shape, levels) {
            Ok(expected) => (result matches Ok(window) && window@ == expected) && expected.len() == 2 * frame_len,
            Err(error) => result == Err::<Vec<T>, FilterbankError>(error),
        },
{
    if frame_len == 0 || frame_len % 2 != 0 {
        return Err(FilterbankError::InvalidFrameLength(frame_len));
    }
    let long_previous: Vec<T> = match window_for_shape(previous_shape, 2 * frame_len, &windows.long, levels) {
        Ok(window) => window,
        Err(error) => return Err(error),
    };
    let long_current: Vec<T> = match window_for_shape(current_shape, 2 * frame_len, &windows.long, levels) {
        Ok(window) => window,
        Err(error) => return Err(error),
    };
    match sequence {
        WindowSequence::OnlyLong => return Ok(joined_window(&long_previous, &long_current, frame_len)),
        _ => {},
    }
    if frame_len != 1024 {
        return Err(FilterbankError::InvalidFrameLength(frame_len));
    }
    let short_current: Vec<T> = match window_for_shape(current_shape, 256, &windows.short, levels) {
        Ok(window) => window,
        Err(error) => return Err(error),
    };
    let short_previous: Vec<T> = match window_for_shape(previous_shape, 256, &windows.short, levels) {
        Ok(window) => window,
        Err(error) => return Err(error),
    };
    match sequence {
        WindowSequence::LongStart => Ok(made_start_window(&long_previous, &short_current, levels)),
        WindowSequence::LongStop => Ok(made_stop_window(&short_previous, &long_current, levels)),
        _ => Err(FilterbankError::UnsupportedWindowSequence(sequence)),
    }
}

/// The extreme values of windows in fixed point.
pub open spec fn fixed_levels() -> Levels<i32> {
    Levels { zero: 0, one: 0x7fff_ffff }
}

/// Makes the window of a shape, in fixed point.
pub fn window_for_shape_q31(shape: WindowShape, len: usize, windows: &ShapeWindows<FixpDbl>) -> (result: Result<
    Vec<FixpDbl>,
    FilterbankError,
>)
    requires
        windows@.fit(len as int),
    ensures
        match windows@.window(shape, len as int, fixed_levels()) {
            Ok(expected) => result matches Ok(window) && window@ == expected,
            Err(error) => result == Err::<Vec<FixpDbl>, FilterbankError>(error),
        },
{
    window_for_shape(shape, len, windows, Levels { zero: 0, one: MAXVAL_DBL })
}

/// Makes the window of a long block, in fixed point.
pub fn block_switching_window_q31(
    frame_len: usize,
    sequence: WindowSequence,
    previous_shape: WindowShape,
    current_shape: WindowShape,
    windows: &WindowSet<FixpDbl>,
) -> (result: Result<Vec<FixpDbl>, FilterbankError>)
    requires
        2 * frame_len <= usize::MAX,
        frame_len > 0 && frame_len % 2 == 0 ==> windows@.fit(frame_len as int),
    ensures
        match windows@.block_window(frame_len as int, sequence, previous_shape, current_shape, fixed_levels()) {
            Ok(expected) => (result matches Ok(window) && window@ == expected) && expected.len() == 2 * frame_len,
            Err(error) => result == Err::<Vec<FixpDbl>, FilterbankError>(error),
        },
{
    block_switching_window(
        frame_len,
        sequence,
        previous_shape,
        current_shape,
        windows,
        Levels { zero: 0, one: MAXVAL_DBL },
    )
}

} // verus!
