//! Inverse quantization of whole spectra, band by band.

use vstd::prelude::*;

use crate::fixed::FixpDbl;
use crate::ics::{total_length, IcsInfo};
use crate::scalefactor::ScalefactorData;
use crate::sfb::{aac_lc_band_offsets_for_ics, borders_for, ScaleFactorBandInfo, SfbError};
use crate::spectral::SpectralData;
use crate::text::literal;

use super::value::{inverse_quantize_value_fixed, inverse_quantized};

verus! {

/// Why a spectrum cannot be inverse quantized.
#[derive(Debug, Clone, Copy, PartialEq, Eq, Structural)]
pub enum InverseQuantError {
    Sfb(SfbError),
    LayoutMismatch,
}

impl From<SfbError> for InverseQuantError {
    fn from(value: SfbError) -> (error: InverseQuantError) {
        InverseQuantError::Sfb(value)
    }
}

impl vstd::std_specs::convert::FromSpecImpl<SfbError> for InverseQuantError {
    open spec fn obeys_from_spec() -> bool {
        true
    }

    open spec fn from_spec(value: SfbError) -> InverseQuantError {
        InverseQuantError::Sfb(value)
    }
}

impl InverseQuantError {
    /// The diagnostic of this error.
    pub open spec fn message(self) -> Seq<char> {
        match self {
            InverseQuantError::Sfb(error) => error.message(),
            InverseQuantError::LayoutMismatch => "AAC inverse quantization layout mismatch"@,
        }
    }

    /// Renders the diagnostic of this error.
    pub fn to_string(&self) -> (message: String)
        ensures
            message@ == self.message(),
    {
        match self {
            InverseQuantError::Sfb(error) => error.to_string(),
            InverseQuantError::LayoutMismatch => literal("AAC inverse quantization layout mismatch"),
        }
    }
}

/// Inverse quantized coefficients.
#[derive(Debug, Clone, PartialEq, Eq)]
pub struct FixedInverseQuantizedSpectrum {
    /// The coefficients of each window.
    pub windows: Vec<Vec<FixpDbl>>,
    /// The binary exponent of each window: its coefficients are fractions times
    /// two to that power.
    pub window_exponents: Vec<i16>,
}

/// The group that a window belongs to, counted from a group on.
pub open spec fn group_from(lengths: Seq<u8>, window: int, group: int) -> int
    decreases lengths.len() - group,
{
    if group >= lengths.len() || window < lengths[group] {
        group
    } else {
        group_from(lengths, window - lengths[group], group + 1)
    }
}

/// The group that a window belongs to.
pub open spec fn group_of(lengths: Seq<u8>, window: int) -> int {
    group_from(lengths, window, 0)
}

/// The last of the first `bands` bands that a line lies in.
pub open spec fn band_of(borders: Seq<usize>, bands: int, line: int) -> Option<int>
    decreases bands,
{
    if bands <= 0 {
        None
    } else if borders[bands - 1] <= line < borders[bands] {
        Some(bands - 1)
    } else {
        band_of(borders, bands - 1, line)
    }
}

/// The scale factor that a line is under, if it lies in a band.
pub open spec fn line_factor(factors: Seq<i16>, borders: Seq<usize>, bands: int, line: int) -> Option<i16> {
    match band_of(borders, bands, line) {
        Some(band) => Some(factors[band]),
        None => None,
    }
}

/// The values of a window's coefficients: each under its scale factor, and
/// silence outside the bands.
pub open spec fn inverse_window(quantized: Seq<i32>, factors: Seq<i16>, borders: Seq<usize>, bands: int) -> Seq<i32> {
    Seq::new(
        quantized.len(),
        |k: int|
            match line_factor(factors, borders, bands, k) {
                Some(factor) => inverse_quantized(quantized[k] as int, factor as int) as i32,
                None => 0i32,
            },
    )
}

/// Why the parts of a frame do not fit together, where they do not.
pub open spec fn layout_error(
    windows: Seq<Vec<i32>>,
    factors: Seq<Vec<i16>>,
    lengths: Seq<u8>,
    max_sfb: u8,
    num_bands: u8,
    granule_length: usize,
) -> Option<InverseQuantError> {
    if windows.len() != total_length(lengths) || exists|w: int|
        0 <= w < windows.len() && #[trigger] windows[w]@.len() != granule_length {
        Some(InverseQuantError::LayoutMismatch)
    } else if factors.len() != lengths.len() || exists|g: int|
        0 <= g < factors.len() && #[trigger] factors[g]@.len() < max_sfb {
        Some(InverseQuantError::LayoutMismatch)
    } else if max_sfb > num_bands {
        Some(InverseQuantError::Sfb(SfbError::MaxSfbOutOfRange { max_sfb, total_sfb: num_bands }))
    } else {
        None
    }
}

/// Whether an outcome is the inverse quantization of a frame.
pub open spec fn spectrum_holds(
    result: Result<FixedInverseQuantizedSpectrum, InverseQuantError>,
    windows: Seq<Vec<i32>>,
    factors: Seq<Vec<i16>>,
    lengths: Seq<u8>,
    max_sfb: u8,
    borders: Seq<usize>,
    num_bands: u8,
    granule_length: usize,
) -> bool {
    match layout_error(windows, factors, lengths, max_sfb, num_bands, granule_length) {
        Some(error) => result == Err::<FixedInverseQuantizedSpectrum, InverseQuantError>(error),
        None => {
            &&& result matches Ok(spectrum)
            &&& spectrum.windows@.len() == windows.len()
            &&& spectrum.window_exponents@ == Seq::new(windows.len(), |w: int| 0i16)
            &&& forall|w: int|
                0 <= w < windows.len() ==> #[trigger] spectrum.windows@[w]@ == inverse_window(
                    windows[w]@,
                    factors[group_of(lengths, w)]@,
                    borders,
                    max_sfb as int,
                )
        },
    }
}

fn summed_length(lengths: &Vec<u8>) -> (sum: u128)
    ensures
        sum == total_length(lengths@),
{
    let mut sum: u128 = 0;
    let mut index: usize = 0;
    assert(lengths@.take(0) =~= Seq::<u8>::empty());
    while index < lengths.len()
        invariant
            index <= lengths@.len(),
            sum == total_length(lengths@.take(index as int)),
            sum <= 255 * index,
        decreases lengths@.len() - index,
    {
        proof {
            let longer = lengths@.take(index + 1);
            assert(longer.drop_last() =~= lengths@.take(index as int));
            assert(longer.last() == lengths@[index as int]);
        }
        sum = sum + lengths[index] as u128;
        index = index + 1;
    }
    assert(lengths@.take(index as int) =~= lengths@);
    sum
}

/// Checks that the parts of a frame fit together.
pub fn validate_layout(
    spectral: &SpectralData,
    scalefactors: &ScalefactorData,
    ics: &IcsInfo,
    sfb: ScaleFactorBandInfo<'_>,
) -> (result: Result<(), InverseQuantError>)
    ensures
        match layout_error(
            spectral.windows@,
            scalefactors.values@,
            ics.window_group_lengths@,
            ics.max_sfb,
            sfb.num_bands,
            sfb.granule_length,
        ) {
            Some(error) => result == Err::<(), InverseQuantError>(error),
            None => result is Ok,
        },
{
    if spectral.windows.len() as u128 != summed_length(&ics.window_group_lengths) {
        return Err(InverseQuantError::LayoutMismatch);
    }
    let mut index: usize = 0;
    while index < spectral.windows.len()
        invariant
            index <= spectral.windows@.len(),
            forall|w: int| 0 <= w < index ==> #[trigger] spectral.windows@[w]@.len() == sfb.granule_length,
        decreases spectral.windows@.len() - index,
    {
        if spectral.windows[index].len() != sfb.granule_length {
            assert(spectral.windows@[index as int]@.len() != sfb.granule_length);
            return Err(InverseQuantError::LayoutMismatch);
        }
        index = index + 1;
    }
    if scalefactors.values.len() != ics.window_group_lengths.len() {
        return Err(InverseQuantError::LayoutMismatch);
    }
    let mut index: usize = 0;
    while index < scalefactors.values.len()
        invariant
            index <= scalefactors.values@.len(),
            forall|g: int| 0 <= g < index ==> #[trigger] scalefactors.values@[g]@.len() >= ics.max_sfb,
        decreases scalefactors.values@.len() - index,
    {
        if scalefactors.values[index].len() < ics.max_sfb as usize {
            assert(scalefactors.values@[index as int]@.len() < ics.max_sfb);
            return Err(InverseQuantError::LayoutMismatch);
        }
        index = index + 1;
    }
    if ics.max_sfb > sfb.num_bands {
        return Err(
            InverseQuantError::Sfb(SfbError::MaxSfbOutOfRange { max_sfb: ics.max_sfb, total_sfb: sfb.num_bands }),
        );
    }
    Ok(())
}

/// Lists the scale factor that each line of a window is under.
pub fn line_factors(factors: &Vec<i16>, sfb: ScaleFactorBandInfo<'_>, max_sfb: u8) -> (row: Vec<Option<i16>>)
    requires
        sfb.covers(max_sfb),
        factors@.len() >= max_sfb,
    ensures
        row@ == Seq::new(
            sfb.granule_length as nat,
            |k: int| line_factor(factors@, sfb.offsets@, max_sfb as int, k),
        ),
{
    let mut row: Vec<Option<i16>> = Vec::new();
    let ghost borders = sfb.offsets@;
    while row.len() < sfb.granule_length
        invariant
            row@.len() <= sfb.granule_length,
            forall|k: int| 0 <= k < row@.len() ==> #[trigger] row@[k] == line_factor(factors@, borders, 0, k),
        decreases sfb.granule_length - row@.len(),
    {
        row.push(None);
    }
    let mut band: usize = 0;
    assert(sfb.offsets@.len() == sfb.offsets.len());
    while band < max_sfb as usize
        invariant
            sfb.covers(max_sfb),
            sfb.offsets@.len() == sfb.offsets.len(),
            borders == sfb.offsets@,
            factors@.len() >= max_sfb,
            band <= max_sfb,
            row@.len() == sfb.granule_length,
            forall|k: int|
                0 <= k < row@.len() ==> #[trigger] row@[k] == line_factor(factors@, borders, band as int, k),
        decreases max_sfb - band,
    {
        let scale: i16 = factors[band];
        let start: usize = sfb.offsets[band];
        let end: usize = sfb.offsets[band + 1];
        let ghost before = row@;
        let mut index: usize = start;
        while index < end
            invariant
                start <= index,
                start < end ==> index <= end <= row@.len(),
                start >= end ==> index == start,
                before.len() == row@.len(),
                forall|k: int| start <= k < index ==> #[trigger] row@[k] == Some(scale),
                forall|k: int|
                    0 <= k < row@.len() && (k < start || index <= k) ==> #[trigger] row@[k] == before[k],
            decreases end - index,
        {
            row.set(index, Some(scale));
            index = index + 1;
        }
        assert forall|k: int| 0 <= k < row@.len() implies #[trigger] row@[k] == line_factor(
            factors@,
            borders,
            band + 1,
            k,
        ) by {
            if !(start <= k < end) {
                assert(row@[k] == before[k]);
            }
        }
        band = band + 1;
    }
    assert(row@ =~= Seq::new(
        sfb.granule_length as nat,
        |k: int| line_factor(factors@, sfb.offsets@, max_sfb as int, k),
    ));
    row
}

/// Inverse quantizes one window.
fn inverse_row(quantized: &Vec<i32>, factors: &Vec<i16>, sfb: ScaleFactorBandInfo<'_>, max_sfb: u8) -> (row: Vec<FixpDbl>)
    requires
        sfb.covers(max_sfb),
        quantized@.len() == sfb.granule_length,
        factors@.len() >= max_sfb,
    ensures
        row@ == inverse_window(quantized@, factors@, sfb.offsets@, max_sfb as int),
{
    let lines: Vec<Option<i16>> = line_factors(factors, sfb, max_sfb);
    let ghost expected = inverse_window(quantized@, factors@, sfb.offsets@, max_sfb as int);
    let mut row: Vec<FixpDbl> = Vec::new();
    while row.len() < quantized.len()
        invariant
            row@.len() <= quantized@.len(),
            lines@ == Seq::new(
                quantized@.len(),
                |k: int| line_factor(factors@, sfb.offsets@, max_sfb as int, k),
            ),
            expected == inverse_window(quantized@, factors@, sfb.offsets@, max_sfb as int),
            forall|k: int| 0 <= k < row@.len() ==> #[trigger] row@[k] == expected[k],
        decreases quantized@.len() - row@.len(),
    {
        let index: usize = row.len();
        let value: FixpDbl = match lines[index] {
            Some(factor) => inverse_quantize_value_fixed(quantized[index], factor),
            None => 0,
        };
        row.push(value);
    }
    assert(row@ =~= expected);
    row
}

/// The windows of the groups from a group on lie behind those before.
proof fn lemma_group(lengths: Seq<u8>, group: int, window: int, offset: int)
    requires
        0 <= group < lengths.len(),
        offset == total_length(lengths.take(group)),
        offset <= window < offset + lengths[group],
    ensures
        group_of(lengths, window) == group,
    decreases group,
{
    lemma_group_step(lengths, group, window, 0, 0);
}

proof fn lemma_group_step(lengths: Seq<u8>, group: int, window: int, passed: int, done: int)
    requires
        0 <= passed <= group < lengths.len(),
        done == total_length(lengths.take(passed)),
        total_length(lengths.take(group)) <= window < total_length(lengths.take(group)) + lengths[group],
    ensures
        group_from(lengths, window - done, passed) == group,
    decreases group - passed,
{
    if passed < group {
        let longer = lengths.take(passed + 1);
        assert(longer.drop_last() =~= lengths.take(passed));
        assert(longer.last() == lengths[passed]);
        lemma_total_grows(lengths, passed + 1, group);
        lemma_group_step(lengths, group, window, passed + 1, done + lengths[passed]);
    }
}

proof fn lemma_total_grows(lengths: Seq<u8>, low: int, high: int)
    requires
        0 <= low <= high <= lengths.len(),
    ensures
        0 <= total_length(lengths.take(low)) <= total_length(lengths.take(high)),
    decreases high,
{
    if low < high {
        lemma_total_grows(lengths, low, high - 1);
        let longer = lengths.take(high);
        assert(longer.drop_last() =~= lengths.take(high - 1));
    } else if high > 0 {
        lemma_total_grows(lengths, low - 1, high - 1);
        let longer = lengths.take(high);
        assert(longer.drop_last() =~= lengths.take(high - 1));
    } else {
        assert(lengths.take(0) =~= Seq::<u8>::empty());
    }
}

/// Lists the group of each window.
pub fn window_groups(lengths: &Vec<u8>) -> (groups: Vec<usize>)
    ensures
        groups@.len() == total_length(lengths@),
        forall|w: int| 0 <= w < groups@.len() ==> #[trigger] groups@[w] == group_of(lengths@, w),
        forall|w: int| 0 <= w < groups@.len() ==> #[trigger] groups@[w] < lengths@.len(),
{
    let mut groups: Vec<usize> = Vec::new();
    let mut group: usize = 0;
    assert(lengths@.take(0) =~= Seq::<u8>::empty());
    while group < lengths.len()
        invariant
            group <= lengths@.len(),
            groups@.len() == total_length(lengths@.take(group as int)),
            forall|w: int| 0 <= w < groups@.len() ==> #[trigger] groups@[w] == group_of(lengths@, w),
            forall|w: int| 0 <= w < groups@.len() ==> #[trigger] groups@[w] < lengths@.len(),
        decreases lengths@.len() - group,
    {
        let count: u8 = lengths[group];
        let mut done: u8 = 0;
        let ghost start = groups@.len() as int;
        while done < count
            invariant
                group < lengths@.len(),
                count == lengths@[group as int],
                start == total_length(lengths@.take(group as int)),
                done <= count,
                groups@.len() == start + done,
                forall|w: int| 0 <= w < groups@.len() ==> #[trigger] groups@[w] == group_of(lengths@, w),
                forall|w: int| 0 <= w < groups@.len() ==> #[trigger] groups@[w] < lengths@.len(),
            decreases count - done,
        {
            proof {
                lemma_group(lengths@, group as int, start + done, start);
            }
            groups.push(group);
            done = done + 1;
        }
        proof {
            let longer = lengths@.take(group + 1);
            assert(longer.drop_last() =~= lengths@.take(group as int));
            assert(longer.last() == count);
        }
        group = group + 1;
    }
    assert(lengths@.take(lengths@.len() as int) =~= lengths@);
    groups
}

/// Inverse quantizes a frame with the given bands.
pub fn inverse_quantize_spectrum_fixed(
    spectral: &SpectralData,
    scalefactors: &ScalefactorData,
    ics: &IcsInfo,
    sfb: ScaleFactorBandInfo<'_>,
) -> (result: Result<FixedInverseQuantizedSpectrum, InverseQuantError>)
    requires
        ics.max_sfb <= sfb.num_bands ==> sfb.covers(ics.max_sfb),
    ensures
        spectrum_holds(
            result,
            spectral.windows@,
            scalefactors.values@,
            ics.window_group_lengths@,
            ics.max_sfb,
            sfb.offsets@,
            sfb.num_bands,
            sfb.granule_length,
        ),
{
    match validate_layout(spectral, scalefactors, ics, sfb) {
        Ok(()) => {},
        Err(error) => return Err(error),
    }
    let groups: Vec<usize> = window_groups(&ics.window_group_lengths);
    let mut windows: Vec<Vec<FixpDbl>> = Vec::new();
    let mut window_exponents: Vec<i16> = Vec::new();
    assert(spectral.windows@.len() == spectral.windows.len());
    while windows.len() < spectral.windows.len()
        invariant
            sfb.covers(ics.max_sfb),
            scalefactors.values@.len() == ics.window_group_lengths@.len(),
            groups@.len() == spectral.windows@.len(),
            forall|w: int| 0 <= w < groups@.len() ==> #[trigger] groups@[w] == group_of(ics.window_group_lengths@, w),
            forall|w: int| 0 <= w < groups@.len() ==> #[trigger] groups@[w] < scalefactors.values@.len(),
            forall|w: int|
                0 <= w < spectral.windows@.len() ==> #[trigger] spectral.windows@[w]@.len() == sfb.granule_length,
            forall|g: int|
                0 <= g < scalefactors.values@.len() ==> #[trigger] scalefactors.values@[g]@.len() >= ics.max_sfb,
            windows@.len() <= spectral.windows@.len(),
            window_exponents@ == Seq::new(windows@.len(), |w: int| 0i16),
            forall|w: int|
                0 <= w < windows@.len() ==> #[trigger] windows@[w]@ == inverse_window(
                    spectral.windows@[w]@,
                    scalefactors.values@[group_of(ics.window_group_lengths@, w)]@,
                    sfb.offsets@,
                    ics.max_sfb as int,
                ),
        decreases spectral.windows@.len() - windows@.len(),
    {
        let window: usize = windows.len();
        let row: Vec<FixpDbl> = inverse_row(
            &spectral.windows[window],
            &scalefactors.values[groups[window]],
            sfb,
            ics.max_sfb,
        );
        let ghost before = windows@;
        windows.push(row);
        window_exponents.push(0);
        assert(window_exponents@ =~= Seq::new(windows@.len(), |w: int| 0i16));
        assert forall|w: int| 0 <= w < windows@.len() implies #[trigger] windows@[w]@ == inverse_window(
            spectral.windows@[w]@,
            scalefactors.values@[group_of(ics.window_group_lengths@, w)]@,
            sfb.offsets@,
            ics.max_sfb as int,
        ) by {
            if w < window {
                assert(windows@[w] == before[w]);
            }
        }
    }
    Ok(FixedInverseQuantizedSpectrum { windows, window_exponents })
}

/// Inverse quantizes a frame with the given bands.
pub fn inverse_quantize_spectrum_fixed_bridge(
    spectral: &SpectralData,
    scalefactors: &ScalefactorData,
    ics: &IcsInfo,
    sfb: ScaleFactorBandInfo<'_>,
) -> (result: Result<FixedInverseQuantizedSpectrum, InverseQuantError>)
    requires
        ics.max_sfb <= sfb.num_bands ==> sfb.covers(ics.max_sfb),
    ensures
        spectrum_holds(
            result,
            spectral.windows@,
            scalefactors.values@,
            ics.window_group_lengths@,
            ics.max_sfb,
            sfb.offsets@,
            sfb.num_bands,
            sfb.granule_length,
        ),
{
    inverse_quantize_spectrum_fixed(spectral, scalefactors, ics, sfb)
}

/// Whether an outcome is the inverse quantization of a frame at a sampling
/// frequency index.
pub open spec fn frame_holds(
    result: Result<FixedInverseQuantizedSpectrum, InverseQuantError>,
    spectral: &SpectralData,
    scalefactors: &ScalefactorData,
    sampling_frequency_index: u8,
    ics: &IcsInfo,
) -> bool {
    let (borders, length) = borders_for(sampling_frequency_index, ics.window_sequence);
    if sampling_frequency_index >= 13 {
        result == Err::<FixedInverseQuantizedSpectrum, InverseQuantError>(
            InverseQuantError::Sfb(SfbError::UnsupportedSamplingFrequencyIndex(sampling_frequency_index)),
        )
    } else if ics.max_sfb > borders.len() - 1 {
        result == Err::<FixedInverseQuantizedSpectrum, InverseQuantError>(
            InverseQuantError::Sfb(
                SfbError::MaxSfbOutOfRange { max_sfb: ics.max_sfb, total_sfb: (borders.len() - 1) as u8 },
            ),
        )
    } else {
        spectrum_holds(
            result,
            spectral.windows@,
            scalefactors.values@,
            ics.window_group_lengths@,
            ics.max_sfb,
            borders,
            (borders.len() - 1) as u8,
            length,
        )
    }
}

/// Inverse quantizes a frame at a sampling frequency index.
pub fn inverse_quantize_aac_lc_fixed(
    spectral: &SpectralData,
    scalefactors: &ScalefactorData,
    sampling_frequency_index: u8,
    ics: &IcsInfo,
) -> (result: Result<FixedInverseQuantizedSpectrum, InverseQuantError>)
    ensures
        frame_holds(result, spectral, scalefactors, sampling_frequency_index, ics),
{
    match aac_lc_band_offsets_for_ics(sampling_frequency_index, ics) {
        Ok(sfb) => inverse_quantize_spectrum_fixed(spectral, scalefactors, ics, sfb),
        Err(error) => Err(InverseQuantError::Sfb(error)),
    }
}

/// Inverse quantizes a frame at a sampling frequency index.
pub fn inverse_quantize_aac_lc_fixed_bridge(
    spectral: &SpectralData,
    scalefactors: &ScalefactorData,
    sampling_frequency_index: u8,
    ics: &IcsInfo,
) -> (result: Result<FixedInverseQuantizedSpectrum, InverseQuantError>)
    ensures
        frame_holds(result, spectral, scalefactors, sampling_frequency_index, ics),
{
    inverse_quantize_aac_lc_fixed(spectral, scalefactors, sampling_frequency_index, ics)
}

// ---------------------------------------------------------------------------
// Bands and groups
// ---------------------------------------------------------------------------

proof fn lemma_band_of(borders: Seq<usize>, bands: int, line: int, band: int)
    requires
        0 <= band < bands,
        forall|i: int, j: int| 0 <= i <= j <= bands ==> #[trigger] borders[i] <= #[trigger] borders[j],
        borders[band] <= line < borders[band + 1],
    ensures
        band_of(borders, bands, line) == Some(band),
    decreases bands,
{
    if band < bands - 1 {
        assert(borders[band + 1] <= borders[bands - 1]);
        lemma_band_of(borders, bands - 1, line, band);
    }
}

proof fn lemma_no_band(borders: Seq<usize>, bands: int, all: int, line: int)
    requires
        0 <= bands <= all,
        forall|i: int, j: int| 0 <= i <= j <= all ==> #[trigger] borders[i] <= #[trigger] borders[j],
        line < borders[0] || borders[all] <= line,
    ensures
        band_of(borders, bands, line) is None,
    decreases bands,
{
    if bands > 0 {
        assert(borders[0] <= borders[bands - 1] && borders[bands] <= borders[all]);
        lemma_no_band(borders, bands - 1, all, line);
    }
}

/// A coefficient is inverse quantized with the scale factor of its band, in the group
/// of its window; one that lies outside the bands is silent.
pub proof fn lemma_coefficient_factors(
    result: Result<FixedInverseQuantizedSpectrum, InverseQuantError>,
    windows: Seq<Vec<i32>>,
    factors: Seq<Vec<i16>>,
    lengths: Seq<u8>,
    max_sfb: u8,
    borders: Seq<usize>,
    num_bands: u8,
    granule_length: usize,
    group: int,
    window: int,
    line: int,
)
    requires
        spectrum_holds(result, windows, factors, lengths, max_sfb, borders, num_bands, granule_length),
        layout_error(windows, factors, lengths, max_sfb, num_bands, granule_length) is None,
        forall|i: int, j: int| 0 <= i <= j <= max_sfb ==> #[trigger] borders[i] <= #[trigger] borders[j],
        0 <= group < lengths.len(),
        total_length(lengths.take(group)) <= window < total_length(lengths.take(group + 1)),
        0 <= line < granule_length,
    ensures
        ({
            let value = result->Ok_0.windows@[window]@[line];
            &&& result is Ok
            &&& 0 <= window < result->Ok_0.windows@.len()
            &&& forall|band: int|
                0 <= band < max_sfb && #[trigger] borders[band] <= line < borders[band + 1] ==> value == inverse_quantized(
                    windows[window]@[line] as int,
                    factors[group]@[band] as int,
                ) as i32
            &&& line < borders[0] || borders[max_sfb as int] <= line ==> value == 0
        }),
{
    let longer = lengths.take(group + 1);
    assert(longer.drop_last() =~= lengths.take(group));
    assert(longer.last() == lengths[group]);
    lemma_group(lengths, group, window, total_length(lengths.take(group)));
    lemma_total_grows(lengths, group + 1, lengths.len() as int);
    lemma_total_grows(lengths, 0, group);
    assert(lengths.take(lengths.len() as int) =~= lengths);
    assert(lengths.take(0) =~= Seq::<u8>::empty());
    assert(0 <= window < windows.len());
    assert(windows[window]@.len() == granule_length);
    let row = result->Ok_0.windows@[window]@;
    assert(row == inverse_window(windows[window]@, factors[group]@, borders, max_sfb as int));
    assert forall|band: int| 0 <= band < max_sfb && #[trigger] borders[band] <= line < borders[band + 1] implies row[line]
        == inverse_quantized(windows[window]@[line] as int, factors[group]@[band] as int) as i32 by {
        lemma_band_of(borders, max_sfb as int, line, band);
    }
    if line < borders[0] || borders[max_sfb as int] <= line {
        lemma_no_band(borders, max_sfb as int, max_sfb as int, line);
    }
}

} // verus!
