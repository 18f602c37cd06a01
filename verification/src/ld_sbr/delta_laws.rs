//! What rebuilt values stand for: differences along time are added to the value
//! that stood at the same frequency before, and those along frequency to the band
//! below.

use vstd::prelude::*;

use crate::asc::LdSbrHeader;

use super::delta::{
    added_rows, cover_row, covered, covered_bands, first_high_band, rebuild_envelope, rebuild_envelopes,
    rebuild_frequency_row, rebuild_noise, rebuild_time_row, rebuilt, resized, resolution_offset, row_covered, rows_fit,
    PreviousFields,
};
use super::error::LdSbrError;
use super::frequency::{frequency_tables, halved_borders, strictly_rising, tables_agree, FrequencyBorders};
use super::grid::ControlFields;
use super::values::ChannelFields;

verus! {

// ---------------------------------------------------------------------------
// Bands
// ---------------------------------------------------------------------------

/// The number of high-resolution bands that a low-resolution band is made of: two,
/// but the lowest ones are of one where there are less than two for each, and of
/// three where there are more.
pub open spec fn low_width(tables: FrequencyBorders, band: int) -> int {
    let low = tables.low.len() - 1;
    let high = tables.high.len() - 1;
    if band < 2 * low - high {
        1
    } else if band < high - 2 * low {
        3
    } else {
        2
    }
}

/// The number of high-resolution bands below a low-resolution one.
pub open spec fn low_start(tables: FrequencyBorders, band: int) -> int
    decreases band,
{
    if band <= 0 {
        0
    } else {
        low_start(tables, band - 1) + low_width(tables, band - 1)
    }
}

/// Whether every border of the low-resolution bands is one of the high-resolution
/// ones, as many bands up as the low-resolution bands below it are made of.
pub open spec fn layered(tables: FrequencyBorders) -> bool {
    &&& tables.high.len() >= 1
    &&& tables.low.len() >= 1
    &&& strictly_rising(tables.high)
    &&& forall|band: int|
        0 <= band < tables.low.len() ==> 0 <= #[trigger] low_start(tables, band) < tables.high.len()
            && tables.low[band] == tables.high[low_start(tables, band)]
}

/// The borders of the bands of a resolution.
pub open spec fn band_borders(tables: FrequencyBorders, high_resolution: bool) -> Seq<u8> {
    if high_resolution {
        tables.high
    } else {
        tables.low
    }
}

/// Whether a high-resolution band lies within a band of a resolution.
pub open spec fn lies_in(tables: FrequencyBorders, high_resolution: bool, band: int, high_band: int) -> bool {
    let borders = band_borders(tables, high_resolution);
    &&& 0 <= band < borders.len() - 1
    &&& 0 <= high_band < tables.high.len() - 1
    &&& borders[band] <= tables.high[high_band]
    &&& tables.high[high_band + 1] <= borders[band + 1]
}

/// Whether a high-resolution band begins where a band of a resolution begins.
pub open spec fn begins_with(tables: FrequencyBorders, high_resolution: bool, band: int, high_band: int) -> bool {
    let borders = band_borders(tables, high_resolution);
    &&& 0 <= band < borders.len() - 1
    &&& 0 <= high_band < tables.high.len() - 1
    &&& borders[band] == tables.high[high_band]
}

proof fn lemma_low_start(tables: FrequencyBorders, band: int)
    requires
        0 <= band,
    ensures
        first_high_band(resolution_offset(tables), band, false) == low_start(tables, band),
        covered_bands(resolution_offset(tables), band, false) == low_width(tables, band),
    decreases band,
{
    if band > 0 {
        lemma_low_start(tables, band - 1);
    }
}

/// The bands of a resolution follow each other without gaps.
proof fn lemma_bands_tile(offset: int, band: int, high_resolution: bool)
    requires
        0 <= band,
    ensures
        first_high_band(offset, 0, high_resolution) == 0,
        first_high_band(offset, band + 1, high_resolution) == first_high_band(offset, band, high_resolution)
            + covered_bands(offset, band, high_resolution),
        1 <= covered_bands(offset, band, high_resolution) <= 3,
        first_high_band(offset, band, high_resolution) >= band,
{
}

proof fn lemma_bands_rise(offset: int, below: int, band: int, high_resolution: bool)
    requires
        0 <= below < band,
    ensures
        first_high_band(offset, below, high_resolution) + covered_bands(offset, below, high_resolution)
            <= first_high_band(offset, band, high_resolution),
    decreases band - below,
{
    lemma_bands_tile(offset, below, high_resolution);
    if below + 1 < band {
        lemma_bands_rise(offset, below + 1, band, high_resolution);
        lemma_bands_tile(offset, below + 1, high_resolution);
    }
}

/// The high-resolution band that begins with a band is the first that it is made of.
proof fn lemma_begins(tables: FrequencyBorders, high_resolution: bool, band: int, high_band: int)
    requires
        layered(tables),
        begins_with(tables, high_resolution, band, high_band),
    ensures
        first_high_band(resolution_offset(tables), band, high_resolution) == high_band,
{
    let place = if high_resolution {
        band
    } else {
        lemma_low_start(tables, band);
        low_start(tables, band)
    };
    assert(0 <= place < tables.high.len());
    assert(tables.high[place] == tables.high[high_band]);
    if place < high_band {
        assert(tables.high[place] < tables.high[high_band]);
    } else if high_band < place {
        assert(tables.high[high_band] < tables.high[place]);
    }
}

/// The high-resolution bands that lie in a band are those that it is made of.
proof fn lemma_lies(tables: FrequencyBorders, high_resolution: bool, band: int, high_band: int)
    requires
        layered(tables),
        lies_in(tables, high_resolution, band, high_band),
    ensures
        ({
            let first = first_high_band(resolution_offset(tables), band, high_resolution);
            first <= high_band < first + covered_bands(resolution_offset(tables), band, high_resolution)
        }),
{
    let (from, to) = if high_resolution {
        (band, band + 1)
    } else {
        lemma_low_start(tables, band);
        assert(low_start(tables, band + 1) == low_start(tables, band) + low_width(tables, band));
        (low_start(tables, band), low_start(tables, band + 1))
    };
    assert(0 <= from < tables.high.len());
    assert(0 <= to < tables.high.len());
    if high_band < from {
        assert(tables.high[high_band] < tables.high[from]);
    }
    if to < high_band + 1 {
        assert(tables.high[to] < tables.high[high_band + 1]);
    }
}

// ---------------------------------------------------------------------------
// One row
// ---------------------------------------------------------------------------

/// What a row along time becomes, and what it leaves.
proof fn lemma_time_row(row: Seq<i16>, previous: Seq<i16>, offset: int, high_resolution: bool, band: int)
    requires
        0 <= band <= row.len(),
        row_covered(row.len() as int, offset, high_resolution, previous.len() as int),
    ensures
        ({
            let (sums, left) = rebuild_time_row(row, previous, offset, high_resolution, band);
            &&& sums.len() == row.len()
            &&& left.len() == previous.len()
            &&& forall|b: int| 0 <= b < band ==> #[trigger] sums[b] == row[b]
            &&& forall|b: int|
                band <= b < row.len() ==> #[trigger] sums[b] == row[b].wrapping_add(
                    previous[first_high_band(offset, b, high_resolution)],
                )
            &&& forall|j: int|
                0 <= j < first_high_band(offset, band, high_resolution) && j < previous.len() ==> #[trigger] left[j]
                    == previous[j]
            &&& forall|b: int, j: int|
                band <= b < row.len() && first_high_band(offset, b, high_resolution) <= j < first_high_band(
                    offset,
                    b,
                    high_resolution,
                ) + covered_bands(offset, b, high_resolution) ==> #[trigger] left[j] == #[trigger] sums[b]
        }),
    decreases row.len() - band,
{
    if band < row.len() {
        let first = first_high_band(offset, band, high_resolution);
        let count = covered_bands(offset, band, high_resolution);
        let value = row[band].wrapping_add(previous[first]);
        let next_row = row.update(band, value);
        let next = covered(previous, value, offset, band, high_resolution);
        assert(first + count <= previous.len());
        lemma_bands_tile(offset, band, high_resolution);
        lemma_time_row(next_row, next, offset, high_resolution, band + 1);
        let (sums, left) = rebuild_time_row(row, previous, offset, high_resolution, band);
        assert((sums, left) == rebuild_time_row(next_row, next, offset, high_resolution, band + 1));
        assert forall|b: int| band <= b < row.len() implies #[trigger] sums[b] == row[b].wrapping_add(
            previous[first_high_band(offset, b, high_resolution)],
        ) by {
            if b > band {
                lemma_bands_rise(offset, band, b, high_resolution);
                assert(first_high_band(offset, b, high_resolution) + covered_bands(offset, b, high_resolution)
                    <= previous.len());
                lemma_bands_tile(offset, b, high_resolution);
                assert(next[first_high_band(offset, b, high_resolution)] == previous[first_high_band(
                    offset,
                    b,
                    high_resolution,
                )]);
            } else {
                assert(sums[band] == next_row[band]);
            }
        }
        assert forall|b: int, j: int|
            band <= b < row.len() && first_high_band(offset, b, high_resolution) <= j < first_high_band(
                offset,
                b,
                high_resolution,
            ) + covered_bands(offset, b, high_resolution) implies #[trigger] left[j] == #[trigger] sums[b] by {
            if b == band {
                assert(left[j] == next[j]);
                assert(sums[band] == next_row[band]);
            }
        }
    }
}

/// What a row leaves.
proof fn lemma_covered_row(row: Seq<i16>, previous: Seq<i16>, offset: int, high_resolution: bool, band: int)
    requires
        0 <= band <= row.len(),
        row_covered(row.len() as int, offset, high_resolution, previous.len() as int),
    ensures
        ({
            let left = cover_row(row, previous, offset, high_resolution, band);
            &&& left.len() == previous.len()
            &&& forall|j: int|
                0 <= j < first_high_band(offset, band, high_resolution) && j < previous.len() ==> #[trigger] left[j]
                    == previous[j]
            &&& forall|b: int, j: int|
                band <= b < row.len() && first_high_band(offset, b, high_resolution) <= j < first_high_band(
                    offset,
                    b,
                    high_resolution,
                ) + covered_bands(offset, b, high_resolution) ==> #[trigger] left[j] == #[trigger] row[b]
        }),
    decreases row.len() - band,
{
    if band < row.len() {
        let next = covered(previous, row[band], offset, band, high_resolution);
        assert(first_high_band(offset, band, high_resolution) + covered_bands(offset, band, high_resolution)
            <= previous.len());
        lemma_bands_tile(offset, band, high_resolution);
        lemma_covered_row(row, next, offset, high_resolution, band + 1);
        let left = cover_row(row, previous, offset, high_resolution, band);
        assert forall|b: int, j: int|
            band <= b < row.len() && first_high_band(offset, b, high_resolution) <= j < first_high_band(
                offset,
                b,
                high_resolution,
            ) + covered_bands(offset, b, high_resolution) implies #[trigger] left[j] == #[trigger] row[b] by {
            if b == band {
                assert(left[j] == next[j]);
            }
        }
    }
}

/// What a row along frequency becomes.
proof fn lemma_frequency_row(row: Seq<i16>, band: int)
    requires
        1 <= band,
    ensures
        ({
            let sums = rebuild_frequency_row(row, band);
            &&& sums.len() == row.len()
            &&& forall|b: int| 0 <= b < band && b < row.len() ==> #[trigger] sums[b] == row[b]
            &&& forall|b: int| band <= b < row.len() ==> #[trigger] sums[b] == row[b].wrapping_add(sums[b - 1])
        }),
    decreases row.len() - band,
{
    if band < row.len() {
        let next = row.update(band, row[band].wrapping_add(row[band - 1]));
        lemma_frequency_row(next, band + 1);
        let sums = rebuild_frequency_row(row, band);
        assert(sums[band - 1] == next[band - 1]);
        assert(sums[band] == next[band]);
    }
}

// ---------------------------------------------------------------------------
// All rows
// ---------------------------------------------------------------------------

/// The values of the high-resolution bands in front of an envelope.
spec fn state_before(envelopes: Seq<Seq<i16>>, control: ControlFields, previous: Seq<i16>, offset: int, index: int) -> Seq<i16>
    decreases index,
{
    if index <= 0 {
        previous
    } else {
        rebuild_envelope(
            envelopes[index - 1],
            state_before(envelopes, control, previous, offset, index - 1),
            offset,
            control.grid.frequency_resolution[index - 1],
            control.envelope_time_domain[index - 1],
        ).1
    }
}

proof fn lemma_envelopes(
    envelopes: Seq<Seq<i16>>,
    done: Seq<Seq<i16>>,
    control: ControlFields,
    previous: Seq<i16>,
    offset: int,
    index: int,
)
    requires
        0 <= index <= envelopes.len(),
        done.len() == envelopes.len(),
        forall|i: int| index <= i < envelopes.len() ==> #[trigger] done[i] == envelopes[i],
    ensures
        ({
            let (all, left) = rebuild_envelopes(
                done,
                control,
                state_before(envelopes, control, previous, offset, index),
                offset,
                index,
            );
            &&& all.len() == envelopes.len()
            &&& forall|i: int| 0 <= i < index ==> #[trigger] all[i] == done[i]
            &&& forall|i: int|
                index <= i < envelopes.len() ==> #[trigger] all[i] == rebuild_envelope(
                    envelopes[i],
                    state_before(envelopes, control, previous, offset, i),
                    offset,
                    control.grid.frequency_resolution[i],
                    control.envelope_time_domain[i],
                ).0
            &&& left == state_before(envelopes, control, previous, offset, envelopes.len() as int)
        }),
    decreases envelopes.len() - index,
{
    if index < envelopes.len() {
        let (row, next) = rebuild_envelope(
            envelopes[index],
            state_before(envelopes, control, previous, offset, index),
            offset,
            control.grid.frequency_resolution[index],
            control.envelope_time_domain[index],
        );
        assert(done[index] == envelopes[index]);
        let more = done.update(index, row);
        lemma_envelopes(envelopes, more, control, previous, offset, index + 1);
        assert(state_before(envelopes, control, previous, offset, index + 1) == next);
        let all = rebuild_envelopes(
            done,
            control,
            state_before(envelopes, control, previous, offset, index),
            offset,
            index,
        ).0;
        assert(all[index] == more[index]);
    }
}

/// What an envelope becomes, and what it leaves.
proof fn lemma_one_envelope(row: Seq<i16>, previous: Seq<i16>, offset: int, high_resolution: bool, time_domain: bool)
    requires
        row_covered(row.len() as int, offset, high_resolution, previous.len() as int),
    ensures
        ({
            let (sums, left) = rebuild_envelope(row, previous, offset, high_resolution, time_domain);
            &&& sums.len() == row.len()
            &&& left.len() == previous.len()
            &&& time_domain ==> forall|b: int|
                0 <= b < row.len() ==> #[trigger] sums[b] == row[b].wrapping_add(
                    previous[first_high_band(offset, b, high_resolution)],
                )
            &&& !time_domain && row.len() > 0 ==> sums[0] == row[0]
            &&& !time_domain ==> forall|b: int| 1 <= b < row.len() ==> #[trigger] sums[b] == row[b].wrapping_add(sums[b - 1])
            &&& forall|b: int, j: int|
                0 <= b < row.len() && first_high_band(offset, b, high_resolution) <= j < first_high_band(
                    offset,
                    b,
                    high_resolution,
                ) + covered_bands(offset, b, high_resolution) ==> #[trigger] left[j] == #[trigger] sums[b]
        }),
{
    if time_domain {
        lemma_time_row(row, previous, offset, high_resolution, 0);
    } else {
        lemma_frequency_row(row, 1);
        lemma_covered_row(rebuild_frequency_row(row, 1), previous, offset, high_resolution, 0);
    }
}

proof fn lemma_state_len(
    values: ChannelFields,
    control: ControlFields,
    tables: FrequencyBorders,
    previous: Seq<i16>,
    index: int,
)
    requires
        rows_fit(values, control, tables),
        previous.len() == tables.high.len() - 1,
        0 <= index <= values.envelopes.len(),
    ensures
        state_before(values.envelopes, control, previous, resolution_offset(tables), index).len() == previous.len(),
    decreases index,
{
    if index > 0 {
        lemma_state_len(values, control, tables, previous, index - 1);
        assert(row_covered(
            values.envelopes[index - 1].len() as int,
            resolution_offset(tables),
            control.grid.frequency_resolution[index - 1],
            tables.high.len() - 1,
        ));
        lemma_one_envelope(
            values.envelopes[index - 1],
            state_before(values.envelopes, control, previous, resolution_offset(tables), index - 1),
            resolution_offset(tables),
            control.grid.frequency_resolution[index - 1],
            control.envelope_time_domain[index - 1],
        );
    }
}

/// An envelope of a channel: what it was rebuilt from.
proof fn lemma_channel_envelope(
    values: ChannelFields,
    control: ControlFields,
    tables: FrequencyBorders,
    previous: PreviousFields,
    index: int,
)
    requires
        rows_fit(values, control, tables),
        tables.high.len() >= 1,
        0 <= index < values.envelopes.len(),
    ensures
        ({
            let start = resized(previous.envelope_high, (tables.high.len() - 1) as nat);
            let state = state_before(values.envelopes, control, start, resolution_offset(tables), index);
            &&& state.len() == tables.high.len() - 1
            &&& row_covered(
                values.envelopes[index].len() as int,
                resolution_offset(tables),
                control.grid.frequency_resolution[index],
                state.len() as int,
            )
            &&& rebuilt(values, control, tables, previous).0.envelopes.len() == values.envelopes.len()
            &&& rebuilt(values, control, tables, previous).0.envelopes[index] == rebuild_envelope(
                values.envelopes[index],
                state,
                resolution_offset(tables),
                control.grid.frequency_resolution[index],
                control.envelope_time_domain[index],
            ).0
        }),
{
    let start = resized(previous.envelope_high, (tables.high.len() - 1) as nat);
    lemma_state_len(values, control, tables, start, index);
    lemma_envelopes(values.envelopes, values.envelopes, control, start, resolution_offset(tables), 0);
    assert(row_covered(
        values.envelopes[index].len() as int,
        resolution_offset(tables),
        control.grid.frequency_resolution[index],
        tables.high.len() - 1,
    ));
}

/// A difference along time is added to the value that stood at the frequency where
/// its band begins: in the envelope before, the value of the band in which that
/// frequency lies; in front of the first envelope, the value that the previous frame
/// left there, or zero where it left none.
pub proof fn lemma_differences_along_time(
    values: ChannelFields,
    control: ControlFields,
    tables: FrequencyBorders,
    previous: PreviousFields,
    index: int,
    band: int,
    high_band: int,
)
    requires
        layered(tables),
        rows_fit(values, control, tables),
        0 <= index < values.envelopes.len(),
        control.envelope_time_domain[index],
        0 <= band < values.envelopes[index].len(),
        begins_with(tables, control.grid.frequency_resolution[index], band, high_band),
    ensures
        ({
            let sent = values.envelopes[index][band];
            let all = rebuilt(values, control, tables, previous).0.envelopes;
            &&& all[index].len() == values.envelopes[index].len()
            &&& index == 0 && high_band < previous.envelope_high.len() ==> all[index][band] == sent.wrapping_add(
                previous.envelope_high[high_band],
            )
            &&& index == 0 && high_band >= previous.envelope_high.len() ==> all[index][band] == sent
            &&& index > 0 ==> forall|below: int|
                0 <= below < values.envelopes[index - 1].len() && lies_in(
                    tables,
                    control.grid.frequency_resolution[index - 1],
                    below,
                    high_band,
                ) ==> all[index][band] == sent.wrapping_add(#[trigger] all[index - 1][below])
        }),
{
    let offset = resolution_offset(tables);
    let start = resized(previous.envelope_high, (tables.high.len() - 1) as nat);
    let resolution = control.grid.frequency_resolution[index];
    let state = state_before(values.envelopes, control, start, offset, index);
    let all = rebuilt(values, control, tables, previous).0.envelopes;
    let sent = values.envelopes[index][band];
    lemma_channel_envelope(values, control, tables, previous, index);
    lemma_one_envelope(values.envelopes[index], state, offset, resolution, true);
    lemma_begins(tables, resolution, band, high_band);
    assert(all[index][band] == sent.wrapping_add(state[high_band]));
    if index > 0 {
        let earlier = state_before(values.envelopes, control, start, offset, index - 1);
        lemma_channel_envelope(values, control, tables, previous, index - 1);
        lemma_one_envelope(
            values.envelopes[index - 1],
            earlier,
            offset,
            control.grid.frequency_resolution[index - 1],
            control.envelope_time_domain[index - 1],
        );
        assert forall|below: int|
            0 <= below < values.envelopes[index - 1].len() && lies_in(
                tables,
                control.grid.frequency_resolution[index - 1],
                below,
                high_band,
            ) implies all[index][band] == sent.wrapping_add(#[trigger] all[index - 1][below]) by {
            lemma_lies(tables, control.grid.frequency_resolution[index - 1], below, high_band);
            assert(state[high_band] == all[index - 1][below]);
        }
    } else {
        assert(sent.wrapping_add(0) == sent);
    }
}

/// A difference along frequency is added to the value of the band below; the lowest
/// band is sent as it is.
pub proof fn lemma_differences_along_frequency(
    values: ChannelFields,
    control: ControlFields,
    tables: FrequencyBorders,
    previous: PreviousFields,
    index: int,
    band: int,
)
    requires
        tables.high.len() >= 1,
        rows_fit(values, control, tables),
        0 <= index < values.envelopes.len(),
        !control.envelope_time_domain[index],
        0 <= band < values.envelopes[index].len(),
    ensures
        ({
            let sent = values.envelopes[index][band];
            let row = rebuilt(values, control, tables, previous).0.envelopes[index];
            &&& row.len() == values.envelopes[index].len()
            &&& band == 0 ==> row[band] == sent
            &&& band > 0 ==> row[band] == sent.wrapping_add(row[band - 1])
        }),
{
    let start = resized(previous.envelope_high, (tables.high.len() - 1) as nat);
    let offset = resolution_offset(tables);
    lemma_channel_envelope(values, control, tables, previous, index);
    lemma_one_envelope(
        values.envelopes[index],
        state_before(values.envelopes, control, start, offset, index),
        offset,
        control.grid.frequency_resolution[index],
        false,
    );
}

/// What a frame leaves for the next one: at every high-resolution band the value of
/// its last envelope there, or without envelopes what the previous frame left.
pub proof fn lemma_values_left(
    values: ChannelFields,
    control: ControlFields,
    tables: FrequencyBorders,
    previous: PreviousFields,
    high_band: int,
)
    requires
        layered(tables),
        rows_fit(values, control, tables),
        0 <= high_band < tables.high.len() - 1,
    ensures
        ({
            let count = values.envelopes.len() as int;
            let (all, left) = rebuilt(values, control, tables, previous);
            &&& left.envelope_high.len() == tables.high.len() - 1
            &&& count == 0 && high_band < previous.envelope_high.len() ==> left.envelope_high[high_band]
                == previous.envelope_high[high_band]
            &&& count > 0 ==> forall|band: int|
                0 <= band < values.envelopes[count - 1].len() && lies_in(
                    tables,
                    control.grid.frequency_resolution[count - 1],
                    band,
                    high_band,
                ) ==> left.envelope_high[high_band] == #[trigger] all.envelopes[count - 1][band]
        }),
{
    let count = values.envelopes.len() as int;
    let offset = resolution_offset(tables);
    let start = resized(previous.envelope_high, (tables.high.len() - 1) as nat);
    let (all, left) = rebuilt(values, control, tables, previous);
    lemma_state_len(values, control, tables, start, count);
    lemma_envelopes(values.envelopes, values.envelopes, control, start, offset, 0);
    if count > 0 {
        lemma_channel_envelope(values, control, tables, previous, count - 1);
        lemma_one_envelope(
            values.envelopes[count - 1],
            state_before(values.envelopes, control, start, offset, count - 1),
            offset,
            control.grid.frequency_resolution[count - 1],
            control.envelope_time_domain[count - 1],
        );
        assert forall|band: int|
            0 <= band < values.envelopes[count - 1].len() && lies_in(
                tables,
                control.grid.frequency_resolution[count - 1],
                band,
                high_band,
            ) implies left.envelope_high[high_band] == #[trigger] all.envelopes[count - 1][band] by {
            lemma_lies(tables, control.grid.frequency_resolution[count - 1], band, high_band);
        }
    }
}

/// An envelope along time whose differences are all zero repeats the one before it,
/// where both have the same bands.
pub proof fn lemma_no_differences_repeat(
    values: ChannelFields,
    control: ControlFields,
    tables: FrequencyBorders,
    previous: PreviousFields,
    index: int,
)
    requires
        layered(tables),
        rows_fit(values, control, tables),
        0 < index < values.envelopes.len(),
        control.envelope_time_domain[index],
        control.grid.frequency_resolution[index] == control.grid.frequency_resolution[index - 1],
        values.envelopes[index].len() == values.envelopes[index - 1].len(),
        values.envelopes[index].len() < band_borders(tables, control.grid.frequency_resolution[index]).len(),
        forall|band: int| 0 <= band < values.envelopes[index].len() ==> #[trigger] values.envelopes[index][band] == 0,
    ensures
        rebuilt(values, control, tables, previous).0.envelopes[index] == rebuilt(
            values,
            control,
            tables,
            previous,
        ).0.envelopes[index - 1],
{
    let all = rebuilt(values, control, tables, previous).0.envelopes;
    let offset = resolution_offset(tables);
    let start = resized(previous.envelope_high, (tables.high.len() - 1) as nat);
    let resolution = control.grid.frequency_resolution[index];
    lemma_channel_envelope(values, control, tables, previous, index);
    lemma_channel_envelope(values, control, tables, previous, index - 1);
    lemma_one_envelope(
        values.envelopes[index],
        state_before(values.envelopes, control, start, offset, index),
        offset,
        resolution,
        true,
    );
    lemma_one_envelope(
        values.envelopes[index - 1],
        state_before(values.envelopes, control, start, offset, index - 1),
        offset,
        resolution,
        control.envelope_time_domain[index - 1],
    );
    assert forall|band: int| 0 <= band < all[index].len() implies all[index][band] == all[index - 1][band] by {
        let first = first_high_band(offset, band, resolution);
        lemma_bands_tile(offset, band, resolution);
        assert(state_before(values.envelopes, control, start, offset, index)[first] == all[index - 1][band]);
        assert(values.envelopes[index][band] == 0);
    }
    assert(all[index] =~= all[index - 1]);
}

// ---------------------------------------------------------------------------
// Noise
// ---------------------------------------------------------------------------

proof fn lemma_noise_rows(noise: Seq<Seq<i16>>, control: ControlFields, previous: Seq<i16>, index: int)
    requires
        0 <= index,
    ensures
        ({
            let all = rebuild_noise(noise, control, previous, index);
            &&& all.len() == noise.len()
            &&& forall|i: int| 0 <= i < index && i < noise.len() ==> #[trigger] all[i] == noise[i]
            &&& forall|i: int|
                index <= i < noise.len() ==> #[trigger] all[i] == if control.noise_time_domain[i] {
                    added_rows(
                        noise[i],
                        if i == 0 {
                            previous
                        } else {
                            all[i - 1]
                        },
                    )
                } else {
                    rebuild_frequency_row(noise[i], 1)
                }
        }),
    decreases noise.len() - index,
{
    if index < noise.len() {
        let reference = if index == 0 {
            previous
        } else {
            noise[index - 1]
        };
        let row = if control.noise_time_domain[index] {
            added_rows(noise[index], reference)
        } else {
            rebuild_frequency_row(noise[index], 1)
        };
        let more = noise.update(index, row);
        lemma_noise_rows(more, control, previous, index + 1);
        let all = rebuild_noise(noise, control, previous, index);
        assert(all == rebuild_noise(more, control, previous, index + 1));
        assert(all[index] == more[index]);
        if index > 0 {
            assert(all[index - 1] == more[index - 1]);
        }
        assert forall|i: int| index <= i < noise.len() implies #[trigger] all[i] == (if control.noise_time_domain[i] {
            added_rows(
                noise[i],
                if i == 0 {
                    previous
                } else {
                    all[i - 1]
                },
            )
        } else {
            rebuild_frequency_row(noise[i], 1)
        }) by {
            if i > index {
                assert(more[i] == noise[i]);
            }
        }
    }
}

/// A noise difference along time is added to the value of the same band in the noise
/// envelope before, and in the first one to what the previous frame left; one along
/// frequency to the band below. The last noise envelope is left for the next frame.
pub proof fn lemma_noise_differences(
    values: ChannelFields,
    control: ControlFields,
    tables: FrequencyBorders,
    previous: PreviousFields,
    index: int,
    band: int,
)
    requires
        tables.noise.len() >= 1,
        0 <= index < values.noise.len(),
        0 <= band < values.noise[index].len(),
        band < tables.noise.len() - 1,
    ensures
        ({
            let sent = values.noise[index][band];
            let (all, left) = rebuilt(values, control, tables, previous);
            let row = all.noise[index];
            &&& all.noise.len() == values.noise.len()
            &&& row.len() == values.noise[index].len()
            &&& control.noise_time_domain[index] && index == 0 && band < previous.noise.len() ==> row[band]
                == sent.wrapping_add(previous.noise[band])
            &&& control.noise_time_domain[index] && index == 0 && band >= previous.noise.len() ==> row[band] == sent
            &&& control.noise_time_domain[index] && index > 0 && band < all.noise[index - 1].len() ==> row[band]
                == sent.wrapping_add(all.noise[index - 1][band])
            &&& !control.noise_time_domain[index] && band == 0 ==> row[band] == sent
            &&& !control.noise_time_domain[index] && band > 0 ==> row[band] == sent.wrapping_add(row[band - 1])
            &&& left.noise == all.noise.last()
        }),
{
    let last = resized(previous.noise, (tables.noise.len() - 1) as nat);
    lemma_noise_rows(values.noise, control, last, 0);
    lemma_frequency_row(values.noise[index], 1);
    assert(values.noise[index][band].wrapping_add(0) == values.noise[index][band]);
}

// ---------------------------------------------------------------------------
// The tables of a header
// ---------------------------------------------------------------------------

/// The low-resolution bands of a header are made of two high-resolution bands each,
/// but the lowest of one where the number is odd; the last ones end together.
pub proof fn lemma_header_tables_layered(header: LdSbrHeader, sampling_frequency: u32, tables: FrequencyBorders)
    requires
        frequency_tables(header, sampling_frequency) == Ok::<FrequencyBorders, LdSbrError>(tables),
        tables_agree(tables),
        strictly_rising(tables.high),
    ensures
        layered(tables),
        low_start(tables, tables.low.len() - 1) == tables.high.len() - 1,
{
    assert(tables.low == halved_borders(tables.high));
    assert forall|band: int| 0 <= band < tables.low.len() implies 0 <= #[trigger] low_start(tables, band)
        < tables.high.len() && tables.low[band] == tables.high[low_start(tables, band)] by {
        lemma_halved_start(tables, band);
    }
    lemma_halved_start(tables, tables.low.len() - 1);
}

proof fn lemma_halved_start(tables: FrequencyBorders, band: int)
    requires
        tables.high.len() >= 1,
        tables.low == halved_borders(tables.high),
        0 <= band < tables.low.len(),
    ensures
        low_start(tables, band) == if (tables.high.len() - 1) % 2 == 0 || band == 0 {
            2 * band
        } else {
            2 * band - 1
        },
    decreases band,
{
    if band > 0 {
        lemma_halved_start(tables, band - 1);
    }
}

} // verus!
