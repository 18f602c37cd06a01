//! Reconstruction of values that are sent as differences.

use vstd::prelude::*;

use super::error::LdSbrError;
use super::frequency::{FrequencyBorders, LdSbrFrequencyTables};
use super::grid::{ControlFields, LdSbrChannelControl};
use super::values::{ChannelFields, LdSbrChannelValues};

verus! {

/// The values of a channel's last envelope, one for each high-resolution band,
/// and of its last noise envelope.
#[derive(Debug, PartialEq, Eq)]
pub struct LdSbrPreviousValues {
    pub envelope_high: Vec<i16>,
    pub noise: Vec<i16>,
}

/// Previous values as sequences.
pub struct PreviousFields {
    pub envelope_high: Seq<i16>,
    pub noise: Seq<i16>,
}

impl PreviousFields {
    /// No previous values.
    pub open spec fn none() -> PreviousFields {
        PreviousFields { envelope_high: Seq::empty(), noise: Seq::empty() }
    }
}

impl View for LdSbrPreviousValues {
    type V = PreviousFields;

    open spec fn view(&self) -> PreviousFields {
        PreviousFields { envelope_high: self.envelope_high@, noise: self.noise@ }
    }
}

impl Default for LdSbrPreviousValues {
    fn default() -> (values: LdSbrPreviousValues)
        ensures
            values@ == PreviousFields::none(),
    {
        let values = LdSbrPreviousValues { envelope_high: Vec::new(), noise: Vec::new() };
        assert(values@.envelope_high =~= Seq::<i16>::empty() && values@.noise =~= Seq::<i16>::empty());
        values
    }
}

impl Clone for LdSbrPreviousValues {
    fn clone(&self) -> (copy: LdSbrPreviousValues)
        ensures
            copy@ == self@,
    {
        let envelope_high = self.envelope_high.clone();
        let noise = self.noise.clone();
        assert(envelope_high@ =~= self.envelope_high@ && noise@ =~= self.noise@);
        LdSbrPreviousValues { envelope_high, noise }
    }
}

/// A sequence cut or filled up with zeros to a length.
pub open spec fn resized(values: Seq<i16>, len: nat) -> Seq<i16> {
    Seq::new(
        len,
        |i: int|
            if i < values.len() {
                values[i]
            } else {
                0
            },
    )
}

/// The first high-resolution band that a band covers. `offset` is by how much
/// twice the low-resolution bands exceed the high-resolution ones: the bands
/// below it cover one band each, and those below its negative three; the others
/// cover two.
pub open spec fn first_high_band(offset: int, index: int, high_resolution: bool) -> int {
    if high_resolution {
        index
    } else if offset >= 0 {
        if index < offset {
            index
        } else {
            2 * index - offset
        }
    } else if index < -offset {
        3 * index
    } else {
        2 * index - offset
    }
}

/// The number of high-resolution bands that a band covers.
pub open spec fn covered_bands(offset: int, index: int, high_resolution: bool) -> int {
    if high_resolution || (offset >= 0 && index < offset) {
        1
    } else if index < -offset {
        3
    } else {
        2
    }
}

/// Sets the high-resolution bands that a band covers.
pub open spec fn covered(previous: Seq<i16>, value: i16, offset: int, index: int, high_resolution: bool) -> Seq<i16> {
    let first = first_high_band(offset, index, high_resolution);
    let count = covered_bands(offset, index, high_resolution);
    Seq::new(
        previous.len(),
        |i: int|
            if first <= i < first + count {
                value
            } else {
                previous[i]
            },
    )
}

/// A row along time from `band` on: each value is added to the previous one of
/// its band, and becomes the previous one. Sums wrap around.
pub open spec fn rebuild_time_row(
    row: Seq<i16>,
    previous: Seq<i16>,
    offset: int,
    high_resolution: bool,
    band: int,
) -> (Seq<i16>, Seq<i16>)
    decreases row.len() - band,
{
    if band < 0 || band >= row.len() {
        (row, previous)
    } else {
        let value = row[band].wrapping_add(previous[first_high_band(offset, band, high_resolution)]);
        rebuild_time_row(
            row.update(band, value),
            covered(previous, value, offset, band, high_resolution),
            offset,
            high_resolution,
            band + 1,
        )
    }
}

/// A row along frequency from `band` on: each value is added to the one of the
/// band below. Sums wrap around.
pub open spec fn rebuild_frequency_row(row: Seq<i16>, band: int) -> Seq<i16>
    decreases row.len() - band,
{
    if band < 1 || band >= row.len() {
        row
    } else {
        rebuild_frequency_row(row.update(band, row[band].wrapping_add(row[band - 1])), band + 1)
    }
}

/// The previous values that a row leaves, from `band` on.
pub open spec fn cover_row(row: Seq<i16>, previous: Seq<i16>, offset: int, high_resolution: bool, band: int) -> Seq<i16>
    decreases row.len() - band,
{
    if band < 0 || band >= row.len() {
        previous
    } else {
        cover_row(
            row,
            covered(previous, row[band], offset, band, high_resolution),
            offset,
            high_resolution,
            band + 1,
        )
    }
}

/// Rebuilding one envelope.
pub open spec fn rebuild_envelope(
    row: Seq<i16>,
    previous: Seq<i16>,
    offset: int,
    high_resolution: bool,
    time_domain: bool,
) -> (Seq<i16>, Seq<i16>) {
    if time_domain {
        rebuild_time_row(row, previous, offset, high_resolution, 0)
    } else {
        let sums = rebuild_frequency_row(row, 1);
        (sums, cover_row(sums, previous, offset, high_resolution, 0))
    }
}

/// Rebuilding the envelopes from `index` on.
pub open spec fn rebuild_envelopes(
    envelopes: Seq<Seq<i16>>,
    control: ControlFields,
    previous: Seq<i16>,
    offset: int,
    index: int,
) -> (Seq<Seq<i16>>, Seq<i16>)
    decreases envelopes.len() - index,
{
    if index < 0 || index >= envelopes.len() {
        (envelopes, previous)
    } else {
        let (row, next) = rebuild_envelope(
            envelopes[index],
            previous,
            offset,
            control.grid.frequency_resolution[index],
            control.envelope_time_domain[index],
        );
        rebuild_envelopes(envelopes.update(index, row), control, next, offset, index + 1)
    }
}

/// A row added to a reference, as far as both go. Sums wrap around.
pub open spec fn added_rows(row: Seq<i16>, reference: Seq<i16>) -> Seq<i16> {
    Seq::new(
        row.len(),
        |i: int|
            if i < reference.len() {
                row[i].wrapping_add(reference[i])
            } else {
                row[i]
            },
    )
}

/// Rebuilding the noise envelopes from `index` on: along time each is added to
/// the one before it, the first to the last one of the previous frame.
pub open spec fn rebuild_noise(noise: Seq<Seq<i16>>, control: ControlFields, previous: Seq<i16>, index: int) -> Seq<Seq<i16>>
    decreases noise.len() - index,
{
    if index < 0 || index >= noise.len() {
        noise
    } else {
        let reference = if index == 0 {
            previous
        } else {
            noise[index - 1]
        };
        let row = if control.noise_time_domain[index] {
            added_rows(noise[index], reference)
        } else {
            rebuild_frequency_row(noise[index], 1)
        };
        rebuild_noise(noise.update(index, row), control, previous, index + 1)
    }
}

/// By how much twice the low-resolution bands exceed the high-resolution ones.
pub open spec fn resolution_offset(tables: FrequencyBorders) -> int {
    2 * (tables.low.len() - 1) - (tables.high.len() - 1)
}

/// The values of a channel and its previous values behind the reconstruction.
pub open spec fn rebuilt(
    values: ChannelFields,
    control: ControlFields,
    tables: FrequencyBorders,
    previous: PreviousFields,
) -> (ChannelFields, PreviousFields) {
    let (envelopes, envelope_high) = rebuild_envelopes(
        values.envelopes,
        control,
        resized(previous.envelope_high, (tables.high.len() - 1) as nat),
        resolution_offset(tables),
        0,
    );
    let last_noise = resized(previous.noise, (tables.noise.len() - 1) as nat);
    let noise = rebuild_noise(values.noise, control, last_noise, 0);
    (
        ChannelFields { inverse_filtering_modes: values.inverse_filtering_modes, envelopes, noise },
        PreviousFields {
            envelope_high,
            noise: if noise.len() > 0 {
                noise.last()
            } else {
                last_noise
            },
        },
    )
}

/// Whether the bands that the first `len` bands of a row cover are among the
/// `high` high-resolution ones.
pub open spec fn row_covered(len: int, offset: int, high_resolution: bool, high: int) -> bool {
    forall|index: int|
        0 <= index < len ==> #[trigger] first_high_band(offset, index, high_resolution) + covered_bands(
            offset,
            index,
            high_resolution,
        ) <= high
}

/// Whether all bands that the rows cover are among the high-resolution ones.
pub open spec fn rows_fit(values: ChannelFields, control: ControlFields, tables: FrequencyBorders) -> bool {
    forall|i: int|
        0 <= i < values.envelopes.len() ==> row_covered(
            (#[trigger] values.envelopes[i]).len() as int,
            resolution_offset(tables),
            control.grid.frequency_resolution[i],
            tables.high.len() - 1,
        )
}

/// Whether tables have numbers of bands that can be counted.
pub open spec fn tables_countable(tables: FrequencyBorders) -> bool {
    &&& 1 <= tables.low.len()
    &&& 2 * (tables.low.len() - 1) <= isize::MAX
    &&& 1 <= tables.high.len() <= isize::MAX
    &&& 1 <= tables.noise.len()
}

/// Whether the first high-resolution band that a band covers can be computed.
pub open spec fn band_countable(offset: int, index: int, high_resolution: bool) -> bool {
    high_resolution || (offset > isize::MIN && (index < offset || (if index < -offset {
        3 * index
    } else if offset >= 0 {
        2 * index
    } else {
        2 * index - offset
    }) <= usize::MAX))
}

/// The first high-resolution band that a band covers.
pub fn low_to_high(offset: isize, index: usize, high_resolution: bool) -> (band: usize)
    requires
        band_countable(offset as int, index as int, high_resolution),
    ensures
        band == first_high_band(offset as int, index as int, high_resolution),
{
    if high_resolution {
        index
    } else if offset >= 0 {
        if index < offset as usize {
            index
        } else {
            2 * index - offset as usize
        }
    } else {
        let magnitude: usize = (-offset) as usize;
        if index < magnitude {
            3 * index
        } else {
            2 * index + magnitude
        }
    }
}

/// Sets the high-resolution bands that a band covers.
pub fn map_to_high(value: i16, previous: &mut Vec<i16>, offset: isize, index: usize, high_resolution: bool)
    requires
        band_countable(offset as int, index as int, high_resolution),
        first_high_band(offset as int, index as int, high_resolution) + covered_bands(
            offset as int,
            index as int,
            high_resolution,
        ) <= old(previous)@.len(),
    ensures
        final(previous)@ == covered(old(previous)@, value, offset as int, index as int, high_resolution),
{
    let first: usize = low_to_high(offset, index, high_resolution);
    let count: usize = if high_resolution || (offset >= 0 && index < offset as usize) {
        1
    } else if offset < 0 && index < (-offset) as usize {
        3
    } else {
        2
    };
    let ghost before = previous@;
    let len: usize = previous.len();
    let mut done: usize = 0;
    while done < count
        invariant
            done <= count,
            first + count <= len,
            len == before.len(),
            previous@.len() == before.len(),
            forall|i: int|
                0 <= i < before.len() ==> #[trigger] previous@[i] == if first <= i < first + done {
                    value
                } else {
                    before[i]
                },
        decreases count - done,
    {
        previous.set(first + done, value);
        done = done + 1;
    }
    assert(previous@ =~= covered(before, value, offset as int, index as int, high_resolution));
}

/// Rebuilds a row along time.
fn time_row(row: &Vec<i16>, previous: &mut Vec<i16>, offset: isize, high_resolution: bool) -> (result: Vec<i16>)
    requires
        offset > isize::MIN,
        old(previous)@.len() <= isize::MAX,
        row_covered(row@.len() as int, offset as int, high_resolution, old(previous)@.len() as int),
    ensures
        (result@, final(previous)@) == rebuild_time_row(
            row@,
            old(previous)@,
            offset as int,
            high_resolution,
            0,
        ),
        final(previous)@.len() == old(previous)@.len(),
{
    let high: usize = previous.len();
    let mut result: Vec<i16> = row.clone();
    assert(result@ =~= row@);
    let mut band: usize = 0;
    while band < row.len()
        invariant
            band <= row@.len(),
            result@.len() == row@.len(),
            previous@.len() == high,
            high == old(previous)@.len(),
            offset > isize::MIN,
            high <= isize::MAX,
            row_covered(row@.len() as int, offset as int, high_resolution, high as int),
            rebuild_time_row(result@, previous@, offset as int, high_resolution, band as int) == rebuild_time_row(
                row@,
                old(previous)@,
                offset as int,
                high_resolution,
                0,
            ),
        decreases row@.len() - band,
    {
        assert(first_high_band(offset as int, band as int, high_resolution) + covered_bands(
            offset as int,
            band as int,
            high_resolution,
        ) <= high);
        let reference: i16 = previous[low_to_high(offset, band, high_resolution)];
        let value: i16 = result[band].wrapping_add(reference);
        result.set(band, value);
        map_to_high(value, previous, offset, band, high_resolution);
        band = band + 1;
    }
    result
}

/// Rebuilds a row along frequency.
fn frequency_row(row: &Vec<i16>) -> (result: Vec<i16>)
    ensures
        result@ == rebuild_frequency_row(row@, 1),
        result@.len() == row@.len(),
{
    let mut result: Vec<i16> = row.clone();
    assert(result@ =~= row@);
    let mut band: usize = 1;
    while band < row.len()
        invariant
            1 <= band,
            result@.len() == row@.len(),
            rebuild_frequency_row(result@, band as int) == rebuild_frequency_row(row@, 1),
        decreases row@.len() - band,
    {
        let value: i16 = result[band].wrapping_add(result[band - 1]);
        result.set(band, value);
        band = band + 1;
    }
    result
}

/// Leaves the values of a row as previous values.
fn leave_row(row: &Vec<i16>, previous: &mut Vec<i16>, offset: isize, high_resolution: bool)
    requires
        offset > isize::MIN,
        old(previous)@.len() <= isize::MAX,
        row_covered(row@.len() as int, offset as int, high_resolution, old(previous)@.len() as int),
    ensures
        final(previous)@ == cover_row(row@, old(previous)@, offset as int, high_resolution, 0),
        final(previous)@.len() == old(previous)@.len(),
{
    let high: usize = previous.len();
    let mut band: usize = 0;
    while band < row.len()
        invariant
            band <= row@.len(),
            previous@.len() == high,
            high == old(previous)@.len(),
            offset > isize::MIN,
            high <= isize::MAX,
            row_covered(row@.len() as int, offset as int, high_resolution, high as int),
            cover_row(row@, previous@, offset as int, high_resolution, band as int) == cover_row(
                row@,
                old(previous)@,
                offset as int,
                high_resolution,
                0,
            ),
        decreases row@.len() - band,
    {
        assert(first_high_band(offset as int, band as int, high_resolution) + covered_bands(
            offset as int,
            band as int,
            high_resolution,
        ) <= high);
        map_to_high(row[band], previous, offset, band, high_resolution);
        band = band + 1;
    }
}

/// Adds a reference to a row.
fn add_reference(row: &Vec<i16>, reference: &Vec<i16>) -> (result: Vec<i16>)
    ensures
        result@ == added_rows(row@, reference@),
{
    let ghost wanted = added_rows(row@, reference@);
    let mut result: Vec<i16> = Vec::new();
    while result.len() < row.len()
        invariant
            result@.len() <= row@.len(),
            wanted == added_rows(row@, reference@),
            forall|i: int| 0 <= i < result@.len() ==> #[trigger] result@[i] == wanted[i],
        decreases row@.len() - result@.len(),
    {
        let band: usize = result.len();
        let value: i16 = if band < reference.len() {
            row[band].wrapping_add(reference[band])
        } else {
            row[band]
        };
        result.push(value);
    }
    assert(result@ =~= wanted);
    result
}

/// Cuts a vector or fills it up with zeros.
fn resize(values: &Vec<i16>, len: usize) -> (result: Vec<i16>)
    ensures
        result@ == resized(values@, len as nat),
{
    let ghost wanted = resized(values@, len as nat);
    let mut result: Vec<i16> = Vec::new();
    while result.len() < len
        invariant
            result@.len() <= len,
            wanted == resized(values@, len as nat),
            forall|i: int| 0 <= i < result@.len() ==> #[trigger] result@[i] == wanted[i],
        decreases len - result@.len(),
    {
        let index: usize = result.len();
        let value: i16 = if index < values.len() {
            values[index]
        } else {
            0
        };
        result.push(value);
    }
    assert(result@ =~= wanted);
    result
}

/// Tells whether the bands that a row covers are among the high-resolution ones.
fn is_row_covered(len: usize, offset: i128, high_resolution: bool, high: usize) -> (result: bool)
    requires
        -0x1_0000_0000_0000_0000 <= offset <= 0x2_0000_0000_0000_0000,
    ensures
        result == row_covered(len as int, offset as int, high_resolution, high as int),
{
    let mut index: usize = 0;
    while index < len
        invariant
            index <= len,
            -0x1_0000_0000_0000_0000 <= offset <= 0x2_0000_0000_0000_0000,
            row_covered(index as int, offset as int, high_resolution, high as int),
        decreases len - index,
    {
        let band: i128 = index as i128;
        let stop: i128 = if high_resolution || band < offset {
            band + 1
        } else if band < -offset {
            3 * band + 3
        } else {
            2 * band - offset + 2
        };
        assert(stop == first_high_band(offset as int, band as int, high_resolution) + covered_bands(
            offset as int,
            band as int,
            high_resolution,
        ));
        if stop > high as i128 {
            return false;
        }
        index = index + 1;
    }
    true
}

impl LdSbrChannelValues {
    /// Whether all bands that the rows cover are among the high-resolution ones.
    pub fn fits(&self, control: &LdSbrChannelControl, tables: &LdSbrFrequencyTables) -> (fits: bool)
        requires
            1 <= tables@.high.len(),
            1 <= tables@.low.len(),
            self@.envelopes.len() <= control@.grid.frequency_resolution.len(),
        ensures
            fits == rows_fit(self@, control@, tables@),
    {
        let high: usize = tables.high_band_count();
        let offset: i128 = 2 * (tables.low_band_count() as i128) - high as i128;
        let mut index: usize = 0;
        while index < self.envelopes.len()
            invariant
                index <= self.envelopes@.len(),
                self@.envelopes.len() <= control@.grid.frequency_resolution.len(),
                high == tables@.high.len() - 1,
                offset == resolution_offset(tables@),
                -0x1_0000_0000_0000_0000 <= offset <= 0x2_0000_0000_0000_0000,
                forall|i: int|
                    0 <= i < index ==> row_covered(
                        (#[trigger] self@.envelopes[i]).len() as int,
                        offset as int,
                        control@.grid.frequency_resolution[i],
                        high as int,
                    ),
            decreases self.envelopes@.len() - index,
        {
            assert(self@.envelopes[index as int] == self.envelopes@[index as int]@);
            if !is_row_covered(self.envelopes[index].len(), offset, control.grid.frequency_resolution[index], high) {
                return false;
            }
            index = index + 1;
        }
        true
    }

    /// Rebuilds the values from their differences, and leaves the previous values
    /// of the next frame.
    pub fn reconstruct_deltas(
        &mut self,
        control: &LdSbrChannelControl,
        tables: &LdSbrFrequencyTables,
        previous: &mut LdSbrPreviousValues,
    ) -> (result: Result<(), LdSbrError>)
        requires
            tables_countable(tables@),
            old(self)@.envelopes.len() <= control@.grid.frequency_resolution.len(),
            old(self)@.envelopes.len() <= control@.envelope_time_domain.len(),
            old(self)@.noise.len() <= control@.noise_time_domain.len(),
            rows_fit(old(self)@, control@, tables@),
        ensures
            result is Ok,
            (final(self)@, final(previous)@) == rebuilt(old(self)@, control@, tables@, old(previous)@),
    {
        let high: usize = tables.high_band_count();
        let offset: isize = 2 * (tables.low_band_count() as isize) - high as isize;
        let ghost envelopes0 = self@.envelopes;
        let mut envelope_high: Vec<i16> = resize(&previous.envelope_high, high);
        let ghost start = envelope_high@;
        let mut index: usize = 0;
        while index < self.envelopes.len()
            invariant
                index <= self.envelopes@.len(),
                self.envelopes@.len() == envelopes0.len(),
                self@.noise == old(self)@.noise,
                self@.inverse_filtering_modes == old(self)@.inverse_filtering_modes,
                envelopes0.len() <= control@.grid.frequency_resolution.len(),
                envelopes0.len() <= control@.envelope_time_domain.len(),
                tables_countable(tables@),
                high == tables@.high.len() - 1,
                offset == resolution_offset(tables@),
                envelope_high@.len() == high,
                forall|i: int|
                    index <= i < self@.envelopes.len() ==> row_covered(
                        (#[trigger] self@.envelopes[i]).len() as int,
                        offset as int,
                        control@.grid.frequency_resolution[i],
                        high as int,
                    ),
                rebuild_envelopes(self@.envelopes, control@, envelope_high@, offset as int, index as int) == rebuild_envelopes(
                    envelopes0,
                    control@,
                    start,
                    offset as int,
                    0,
                ),
            decreases envelopes0.len() - index,
        {
            let high_resolution: bool = control.grid.frequency_resolution[index];
            let ghost before = self@.envelopes;
            assert(before[index as int] == self.envelopes@[index as int]@);
            let row: Vec<i16> = if control.envelope_time_domain[index] {
                time_row(&self.envelopes[index], &mut envelope_high, offset, high_resolution)
            } else {
                let sums: Vec<i16> = frequency_row(&self.envelopes[index]);
                leave_row(&sums, &mut envelope_high, offset, high_resolution);
                sums
            };
            let ghost seen = row@;
            self.envelopes.set(index, row);
            assert(self@.envelopes =~= before.update(index as int, seen));
            index = index + 1;
        }
        let noise_count: usize = tables.noise_band_count();
        let ghost noise0 = self@.noise;
        let ghost envelopes1 = self@.envelopes;
        let last_noise: Vec<i16> = resize(&previous.noise, noise_count);
        let mut index: usize = 0;
        while index < self.noise.len()
            invariant
                index <= self.noise@.len(),
                self.noise@.len() == noise0.len(),
                self@.envelopes == envelopes1,
                self@.inverse_filtering_modes == old(self)@.inverse_filtering_modes,
                noise0.len() <= control@.noise_time_domain.len(),
                rebuild_noise(self@.noise, control@, last_noise@, index as int) == rebuild_noise(
                    noise0,
                    control@,
                    last_noise@,
                    0,
                ),
            decreases noise0.len() - index,
        {
            let ghost before = self@.noise;
            assert(before[index as int] == self.noise@[index as int]@);
            let row: Vec<i16> = if control.noise_time_domain[index] {
                if index == 0 {
                    add_reference(&self.noise[index], &last_noise)
                } else {
                    assert(before[index - 1] == self.noise@[index - 1]@);
                    add_reference(&self.noise[index], &self.noise[index - 1])
                }
            } else {
                frequency_row(&self.noise[index])
            };
            let ghost seen = row@;
            self.noise.set(index, row);
            assert(self@.noise =~= before.update(index as int, seen));
            index = index + 1;
        }
        previous.envelope_high = envelope_high;
        if self.noise.len() > 0 {
            let last: usize = self.noise.len() - 1;
            let row: Vec<i16> = self.noise[last].clone();
            assert(row@ =~= self.noise@[last as int]@);
            assert(self@.noise.last() == self.noise@[last as int]@);
            previous.noise = row;
        } else {
            previous.noise = last_noise;
        }
        Ok(())
    }
}

} // verus!
