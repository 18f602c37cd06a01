//! Scale factor bands.

use vstd::prelude::*;

use crate::ics::{IcsInfo, WindowSequence};
use crate::text::{decimal_text, literal, numbered, numbered_text, push_decimal, push_literal};

verus! {

/// Why there are no bands for a frame.
#[derive(Debug, Clone, Copy, PartialEq, Eq, Structural)]
pub enum SfbError {
    MaxSfbOutOfRange { max_sfb: u8, total_sfb: u8 },
    UnsupportedSamplingFrequencyIndex(u8),
}

impl SfbError {
    /// The diagnostic of this error.
    pub open spec fn message(self) -> Seq<char> {
        match self {
            SfbError::MaxSfbOutOfRange { max_sfb, total_sfb } => "max_sfb "@ + decimal_text(max_sfb as nat)
                + " exceeds total scale-factor bands "@ + decimal_text(total_sfb as nat),
            SfbError::UnsupportedSamplingFrequencyIndex(index) => numbered(
                "unsupported sampling frequency index ",
                index as nat,
                "",
            ),
        }
    }

    /// Renders the diagnostic of this error.
    pub fn to_string(&self) -> (message: String)
        ensures
            message@ == self.message(),
    {
        match self {
            SfbError::MaxSfbOutOfRange { max_sfb, total_sfb } => {
                let mut message: String = literal("max_sfb ");
                push_decimal(&mut message, *max_sfb as u64);
                push_literal(&mut message, " exceeds total scale-factor bands ");
                push_decimal(&mut message, *total_sfb as u64);
                message
            },
            SfbError::UnsupportedSamplingFrequencyIndex(index) => numbered_text(
                "unsupported sampling frequency index ",
                *index as u64,
                "",
            ),
        }
    }
}

/// Band borders at 96 kHz in blocks of 1024 lines.
pub const SFB_96_1024: [usize; 42] = [
    0, 4, 8, 12, 16, 20, 24, 28, 32, 36, 40, 44, 48, 52, 56, 64, 72, 80, 88, 96, 108, 120, 132, 144, 156, 172,
    188, 212, 240, 276, 320, 384, 448, 512, 576, 640, 704, 768, 832, 896, 960, 1024,
];

/// Band borders at 64 kHz in blocks of 1024 lines.
pub const SFB_64_1024: [usize; 48] = [
    0, 4, 8, 12, 16, 20, 24, 28, 32, 36, 40, 44, 48, 52, 56, 64, 72, 80, 88, 100, 112, 124, 140, 156, 172, 192,
    216, 240, 268, 304, 344, 384, 424, 464, 504, 544, 584, 624, 664, 704, 744, 784, 824, 864, 904, 944, 984,
    1024,
];

/// Band borders at 48 kHz in blocks of 1024 lines.
pub const SFB_48_1024: [usize; 50] = [
    0, 4, 8, 12, 16, 20, 24, 28, 32, 36, 40, 48, 56, 64, 72, 80, 88, 96, 108, 120, 132, 144, 160, 176, 196, 216,
    240, 264, 292, 320, 352, 384, 416, 448, 480, 512, 544, 576, 608, 640, 672, 704, 736, 768, 800, 832, 864,
    896, 928, 1024,
];

/// Band borders at 32 kHz in blocks of 1024 lines.
pub const SFB_32_1024: [usize; 52] = [
    0, 4, 8, 12, 16, 20, 24, 28, 32, 36, 40, 48, 56, 64, 72, 80, 88, 96, 108, 120, 132, 144, 160, 176, 196, 216,
    240, 264, 292, 320, 352, 384, 416, 448, 480, 512, 544, 576, 608, 640, 672, 704, 736, 768, 800, 832, 864,
    896, 928, 960, 992, 1024,
];

/// Band borders at 24 kHz in blocks of 1024 lines.
pub const SFB_24_1024: [usize; 48] = [
    0, 4, 8, 12, 16, 20, 24, 28, 32, 36, 40, 44, 52, 60, 68, 76, 84, 92, 100, 108, 116, 124, 136, 148, 160, 172,
    188, 204, 220, 240, 260, 284, 308, 336, 364, 396, 432, 468, 508, 552, 600, 652, 704, 768, 832, 896, 960,
    1024,
];

/// Band borders at 16 kHz in blocks of 1024 lines.
pub const SFB_16_1024: [usize; 44] = [
    0, 8, 16, 24, 32, 40, 48, 56, 64, 72, 80, 88, 100, 112, 124, 136, 148, 160, 172, 184, 196, 212, 228, 244,
    260, 280, 300, 320, 344, 368, 396, 424, 456, 492, 532, 572, 616, 664, 716, 772, 832, 896, 960, 1024,
];

/// Band borders at 8 kHz in blocks of 1024 lines.
pub const SFB_8_1024: [usize; 41] = [
    0, 12, 24, 36, 48, 60, 72, 84, 96, 108, 120, 132, 144, 156, 172, 188, 204, 220, 236, 252, 268, 288, 308,
    328, 348, 372, 396, 420, 448, 476, 508, 544, 580, 620, 664, 712, 764, 820, 880, 944, 1024,
];

/// Band borders at 96 kHz in blocks of 128 lines.
pub const SFB_96_128: [usize; 13] = [
    0, 4, 8, 12, 16, 20, 24, 32, 40, 48, 64, 92, 128,
];

/// Band borders at 48 kHz in blocks of 128 lines.
pub const SFB_48_128: [usize; 15] = [
    0, 4, 8, 12, 16, 20, 28, 36, 44, 56, 68, 80, 96, 112, 128,
];

/// Band borders at 24 kHz in blocks of 128 lines.
pub const SFB_24_128: [usize; 16] = [
    0, 4, 8, 12, 16, 20, 24, 28, 36, 44, 52, 64, 76, 92, 108, 128,
];

/// Band borders at 16 kHz in blocks of 128 lines.
pub const SFB_16_128: [usize; 16] = [
    0, 4, 8, 12, 16, 20, 24, 28, 32, 40, 48, 60, 72, 88, 108, 128,
];

/// Band borders at 8 kHz in blocks of 128 lines.
pub const SFB_8_128: [usize; 16] = [
    0, 4, 8, 12, 16, 20, 24, 28, 36, 44, 52, 60, 72, 88, 108, 128,
];

/// The bands of a block.
#[derive(Debug, Clone, Copy, PartialEq, Eq)]
pub struct ScaleFactorBandInfo<'a> {
    pub offsets: &'a [usize],
    pub num_bands: u8,
    pub granule_length: usize,
}

impl<'a> ScaleFactorBandInfo<'a> {
    /// Whether the borders rise and end within the block.
    pub open spec fn valid(self) -> bool {
        &&& self.offsets@.len() > self.num_bands
        &&& forall|i: int, j: int|
            0 <= i <= j <= self.num_bands ==> #[trigger] self.offsets@[i] <= #[trigger] self.offsets@[j]
        &&& self.offsets@[self.num_bands as int] <= self.granule_length
    }

    /// Whether the first bands have borders, and lie within the block unless
    /// they are empty.
    pub open spec fn covers(self, bands: u8) -> bool {
        bands > 0 ==> self.offsets@.len() > bands && forall|i: int|
            0 <= i < bands && #[trigger] self.offsets@[i] < self.offsets@[i + 1] ==> self.offsets@[i + 1]
                <= self.granule_length
    }
}

/// The borders of long blocks at a sampling frequency index.
pub closed spec fn long_borders(index: u8) -> Seq<usize> {
    if index <= 1 {
        SFB_96_1024@
    } else if index == 2 {
        SFB_64_1024@
    } else if index <= 4 {
        SFB_48_1024@
    } else if index == 5 {
        SFB_32_1024@
    } else if index <= 7 {
        SFB_24_1024@
    } else if index <= 10 {
        SFB_16_1024@
    } else {
        SFB_8_1024@
    }
}

/// The borders of short blocks at a sampling frequency index.
pub closed spec fn short_borders(index: u8) -> Seq<usize> {
    if index <= 2 {
        SFB_96_128@
    } else if index <= 5 {
        SFB_48_128@
    } else if index <= 7 {
        SFB_24_128@
    } else if index <= 10 {
        SFB_16_128@
    } else {
        SFB_8_128@
    }
}

/// Which tables hold the borders at a sampling frequency index.
pub proof fn lemma_border_tables(index: u8)
    ensures
        long_borders(index) == (if index <= 1 {
            SFB_96_1024@
        } else if index == 2 {
            SFB_64_1024@
        } else if index <= 4 {
            SFB_48_1024@
        } else if index == 5 {
            SFB_32_1024@
        } else if index <= 7 {
            SFB_24_1024@
        } else if index <= 10 {
            SFB_16_1024@
        } else {
            SFB_8_1024@
        }),
        short_borders(index) == (if index <= 2 {
            SFB_96_128@
        } else if index <= 5 {
            SFB_48_128@
        } else if index <= 7 {
            SFB_24_128@
        } else if index <= 10 {
            SFB_16_128@
        } else {
            SFB_8_128@
        }),
{
}

/// The bands of a frame: its borders and the length of its blocks.
pub open spec fn borders_for(index: u8, sequence: WindowSequence) -> (Seq<usize>, usize) {
    if sequence is EightShort {
        (short_borders(index), 128)
    } else {
        (long_borders(index), 1024)
    }
}

spec fn rises(borders: Seq<usize>, from: int, end: int) -> bool
    decreases end - from,
{
    from >= end || (borders[from] < borders[from + 1] && rises(borders, from + 1, end))
}

proof fn lemma_rises(borders: Seq<usize>, start: int, end: int, i: int, j: int)
    requires
        rises(borders, start, end),
        start <= i <= j <= end,
    ensures
        borders[i] <= borders[j],
    decreases end - start + j - i,
{
    if start < i {
        lemma_rises(borders, start + 1, end, i, j);
    } else if i < j {
        lemma_rises(borders, start + 1, end, i + 1, j);
    }
}

proof fn lemma_long_rises(index: u8)
    requires
        index < 13,
    ensures
        41 <= long_borders(index).len() <= 52,
        rises(long_borders(index), 0, long_borders(index).len() - 1),
        long_borders(index)[0] == 0,
        long_borders(index).last() == 1024,
{
    reveal_with_fuel(rises, 53);
}

proof fn lemma_short_rises(index: u8)
    requires
        index < 13,
    ensures
        13 <= short_borders(index).len() <= 16,
        rises(short_borders(index), 0, short_borders(index).len() - 1),
        short_borders(index)[0] == 0,
        short_borders(index).last() == 128,
{
    reveal_with_fuel(rises, 17);
}

/// The borders of a frame rise from zero to the length of its blocks.
pub proof fn lemma_borders_rise(index: u8, sequence: WindowSequence)
    requires
        index < 13,
    ensures
        ({
            let (borders, length) = borders_for(index, sequence);
            &&& 13 <= borders.len() <= 52
            &&& borders[0] == 0
            &&& borders.last() == length
            &&& forall|i: int, j: int|
                0 <= i <= j < borders.len() ==> #[trigger] borders[i] <= #[trigger] borders[j]
        }),
{
    lemma_long_rises(index);
    lemma_short_rises(index);
    let (borders, length) = borders_for(index, sequence);
    assert forall|i: int, j: int| 0 <= i <= j < borders.len() implies #[trigger] borders[i] <= #[trigger] borders[j] by {
        lemma_rises(borders, 0, borders.len() - 1, i, j);
    }
}

fn long_borders_at(index: u8) -> (borders: &'static [usize])
    ensures
        borders@ == long_borders(index),
{
    match index {
        0 | 1 => &SFB_96_1024,
        2 => &SFB_64_1024,
        3 | 4 => &SFB_48_1024,
        5 => &SFB_32_1024,
        6 | 7 => &SFB_24_1024,
        8 | 9 | 10 => &SFB_16_1024,
        _ => &SFB_8_1024,
    }
}

fn short_borders_at(index: u8) -> (borders: &'static [usize])
    ensures
        borders@ == short_borders(index),
{
    match index {
        0 | 1 | 2 => &SFB_96_128,
        3 | 4 | 5 => &SFB_48_128,
        6 | 7 => &SFB_24_128,
        8 | 9 | 10 => &SFB_16_128,
        _ => &SFB_8_128,
    }
}

/// The bands of a frame at a sampling frequency index.
pub fn aac_lc_band_offsets_for_ics(sampling_frequency_index: u8, ics: &IcsInfo) -> (result: Result<
    ScaleFactorBandInfo<'static>,
    SfbError,
>)
    ensures
        ({
            let (borders, length) = borders_for(sampling_frequency_index, ics.window_sequence);
            if sampling_frequency_index >= 13 {
                result == Err::<ScaleFactorBandInfo<'static>, SfbError>(
                    SfbError::UnsupportedSamplingFrequencyIndex(sampling_frequency_index),
                )
            } else if ics.max_sfb > borders.len() - 1 {
                result == Err::<ScaleFactorBandInfo<'static>, SfbError>(
                    SfbError::MaxSfbOutOfRange { max_sfb: ics.max_sfb, total_sfb: (borders.len() - 1) as u8 },
                )
            } else {
                result matches Ok(info) && info.offsets@ == borders && info.num_bands == borders.len() - 1
                    && info.granule_length == length && info.valid()
            }
        }),
{
    if sampling_frequency_index >= 13 {
        return Err(SfbError::UnsupportedSamplingFrequencyIndex(sampling_frequency_index));
    }
    proof {
        lemma_borders_rise(sampling_frequency_index, ics.window_sequence);
    }
    let (offsets, granule_length): (&'static [usize], usize) = match ics.window_sequence {
        WindowSequence::EightShort => (short_borders_at(sampling_frequency_index), 128),
        _ => (long_borders_at(sampling_frequency_index), 1024),
    };
    let num_bands: u8 = (offsets.len() - 1) as u8;
    if ics.max_sfb > num_bands {
        return Err(SfbError::MaxSfbOutOfRange { max_sfb: ics.max_sfb, total_sfb: num_bands });
    }
    Ok(ScaleFactorBandInfo { offsets, num_bands, granule_length })
}

} // verus!
