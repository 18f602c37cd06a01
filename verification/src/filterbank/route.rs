//! Which blocks a frame consists of, and the checks on their spectra.

use vstd::prelude::*;

use crate::ics::{WindowSequence, WindowShape};

use super::error::FilterbankError;

verus! {

/// How a frame is synthesized.
#[derive(Debug, Clone, Copy, PartialEq, Eq, Structural)]
pub enum FrameRoute {
    /// From one spectrum, in one long block.
    Long,
    /// From the spectra of short blocks.
    Short,
}

/// How a frame of a number of spectra is synthesized, or why it cannot be.
pub open spec fn route_of(sequence: WindowSequence, windows: int) -> Result<FrameRoute, FilterbankError> {
    if sequence is EightShort {
        Ok(FrameRoute::Short)
    } else if windows != 1 {
        Err(FilterbankError::ExpectedOneLongWindow { actual: windows as usize })
    } else {
        Ok(FrameRoute::Long)
    }
}

/// How a frame in sine windows is synthesized. Such frames do not change between
/// long and short blocks.
pub open spec fn sine_route_of(sequence: WindowSequence, shape: WindowShape, windows: int) -> Result<
    FrameRoute,
    FilterbankError,
> {
    if !(shape is Sine) {
        Err(FilterbankError::UnsupportedWindowShape(shape))
    } else if sequence is LongStart || sequence is LongStop {
        Err(FilterbankError::UnsupportedWindowSequence(sequence))
    } else {
        route_of(sequence, windows)
    }
}

/// Decides how a frame is synthesized.
pub fn frame_route(sequence: WindowSequence, windows: usize) -> (route: Result<FrameRoute, FilterbankError>)
    ensures
        route == route_of(sequence, windows as int),
{
    match sequence {
        WindowSequence::EightShort => Ok(FrameRoute::Short),
        _ => if windows != 1 {
            Err(FilterbankError::ExpectedOneLongWindow { actual: windows })
        } else {
            Ok(FrameRoute::Long)
        },
    }
}

/// Decides how a frame in sine windows is synthesized.
pub fn sine_frame_route(sequence: WindowSequence, shape: WindowShape, windows: usize) -> (route: Result<
    FrameRoute,
    FilterbankError,
>)
    ensures
        route == sine_route_of(sequence, shape, windows as int),
{
    match shape {
        WindowShape::Sine => {},
        _ => return Err(FilterbankError::UnsupportedWindowShape(shape)),
    }
    match sequence {
        WindowSequence::LongStart | WindowSequence::LongStop => Err(
            FilterbankError::UnsupportedWindowSequence(sequence),
        ),
        _ => frame_route(sequence, windows),
    }
}

/// Decides how a frame of one long block in a sine window is synthesized.
pub fn long_sine_frame_route(sequence: WindowSequence, shape: WindowShape, windows: usize) -> (route: Result<
    FrameRoute,
    FilterbankError,
>)
    ensures
        if sequence is OnlyLong {
            route == sine_route_of(sequence, shape, windows as int)
        } else {
            route == Err::<FrameRoute, FilterbankError>(FilterbankError::UnsupportedWindowSequence(sequence))
        },
{
    match sequence {
        WindowSequence::OnlyLong => sine_frame_route(sequence, shape, windows),
        _ => Err(FilterbankError::UnsupportedWindowSequence(sequence)),
    }
}

/// What is wrong with the spectrum of a long block, where something is.
pub open spec fn long_fault(frame_len: int, lines: int, sequence: WindowSequence) -> Option<FilterbankError> {
    if lines != frame_len {
        Some(FilterbankError::SpectrumLengthMismatch { expected: frame_len as usize, actual: lines as usize })
    } else if sequence is EightShort {
        Some(FilterbankError::UnsupportedWindowSequence(sequence))
    } else {
        None
    }
}

/// Checks the spectrum of a long block.
pub fn check_long_spectrum(frame_len: usize, lines: usize, sequence: WindowSequence) -> (result: Result<(), FilterbankError>)
    ensures
        match long_fault(frame_len as int, lines as int, sequence) {
            Some(fault) => result == Err::<(), FilterbankError>(fault),
            None => result is Ok,
        },
{
    if lines != frame_len {
        return Err(FilterbankError::SpectrumLengthMismatch { expected: frame_len, actual: lines });
    }
    match sequence {
        WindowSequence::EightShort => Err(FilterbankError::UnsupportedWindowSequence(sequence)),
        _ => Ok(()),
    }
}

/// The length of the first spectrum from `index` on that is not of 128 lines.
pub open spec fn first_bad_length<T>(spectra: Seq<Vec<T>>, index: int) -> Option<usize>
    decreases spectra.len() - index,
{
    if index < 0 || index >= spectra.len() {
        None
    } else if spectra[index]@.len() != 128 {
        Some(spectra[index]@.len() as usize)
    } else {
        first_bad_length(spectra, index + 1)
    }
}

/// What is wrong with the spectra of short blocks, where something is.
pub open spec fn short_fault<T>(frame_len: int, spectra: Seq<Vec<T>>) -> Option<FilterbankError> {
    if frame_len != 1024 {
        Some(FilterbankError::InvalidFrameLength(frame_len as usize))
    } else if spectra.len() != 8 {
        Some(FilterbankError::ExpectedEightShortWindows { actual: spectra.len() as usize })
    } else {
        match first_bad_length(spectra, 0) {
            Some(actual) => Some(FilterbankError::SpectrumLengthMismatch { expected: 128, actual }),
            None => None,
        }
    }
}

/// Checks the spectra of short blocks: eight, of 128 lines each, in a frame of
/// 1024 samples.
pub fn check_short_spectra<T>(frame_len: usize, spectra: &[Vec<T>]) -> (result: Result<(), FilterbankError>)
    ensures
        match short_fault(frame_len as int, spectra@) {
            Some(fault) => result == Err::<(), FilterbankError>(fault),
            None => result is Ok,
        },
        result is Ok ==> spectra@.len() == 8 && forall|i: int| 0 <= i < 8 ==> #[trigger] spectra@[i]@.len() == 128,
{
    assert(spectra@.len() == spectra.len());
    if frame_len != 1024 {
        return Err(FilterbankError::InvalidFrameLength(frame_len));
    }
    if spectra.len() != 8 {
        return Err(FilterbankError::ExpectedEightShortWindows { actual: spectra.len() });
    }
    let mut index: usize = 0;
    while index < 8
        invariant
            index <= 8,
            spectra@.len() == 8,
            frame_len == 1024,
            first_bad_length(spectra@, 0) == first_bad_length(spectra@, index as int),
            forall|i: int| 0 <= i < index ==> #[trigger] spectra@[i]@.len() == 128,
        decreases 8 - index,
    {
        if spectra[index].len() != 128 {
            return Err(FilterbankError::SpectrumLengthMismatch { expected: 128, actual: spectra[index].len() });
        }
        index = index + 1;
    }
    Ok(())
}

} // verus!
