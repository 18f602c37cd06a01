//! The time and frequency intervals that slots and bands fall into.

use vstd::prelude::*;

use crate::ld_sbr::{LdSbrFrequencyTables, LdSbrGrid};

use super::error::QmfError;

verus! {

/// The first interval from an index on that a value falls into.
pub open spec fn interval_of(borders: Seq<u8>, value: int, from: int) -> Option<int>
    decreases borders.len() - from,
{
    if from + 1 >= borders.len() || from < 0 {
        None
    } else if borders[from] <= value < borders[from + 1] {
        Some(from)
    } else {
        interval_of(borders, value, from + 1)
    }
}

/// Finds the first interval between borders that a value falls into.
pub fn border_index(borders: &[u8], value: usize) -> (index: Option<usize>)
    ensures
        match interval_of(borders@, value as int, 0) {
            Some(expected) => (index matches Some(found) && found == expected) && expected + 1 < borders@.len(),
            None => index is None,
        },
        index matches Some(found) ==> found + 1 < borders@.len() && borders@[found as int] <= value < borders@[found + 1],
{
    assert(borders@.len() == borders.len());
    let mut index: usize = 0;
    while index < borders.len() && index + 1 < borders.len()
        invariant
            borders@.len() == borders.len(),
            index <= borders@.len(),
            interval_of(borders@, value as int, 0) == interval_of(borders@, value as int, index as int),
        decreases borders@.len() - index,
    {
        if borders[index] as usize <= value && value < borders[index + 1] as usize {
            return Some(index);
        }
        index = index + 1;
    }
    None
}

/// A value between two neighbouring borders that rise falls into that interval
/// and no other.
pub proof fn lemma_interval(borders: Seq<u8>, value: int, index: int)
    requires
        0 <= index,
        index + 1 < borders.len(),
        forall|i: int, j: int| 0 <= i <= j < borders.len() ==> #[trigger] borders[i] <= #[trigger] borders[j],
        borders[index] <= value < borders[index + 1],
    ensures
        interval_of(borders, value, 0) == Some(index),
{
    lemma_interval_from(borders, value, index, 0);
}

proof fn lemma_interval_from(borders: Seq<u8>, value: int, index: int, from: int)
    requires
        0 <= from <= index,
        index + 1 < borders.len(),
        forall|i: int, j: int| 0 <= i <= j < borders.len() ==> #[trigger] borders[i] <= #[trigger] borders[j],
        borders[index] <= value < borders[index + 1],
    ensures
        interval_of(borders, value, from) == Some(index),
    decreases index - from,
{
    if from < index {
        assert(borders[from + 1] <= borders[index]);
        lemma_interval_from(borders, value, index, from + 1);
    }
}

// ---------------------------------------------------------------------------
// Envelopes
// ---------------------------------------------------------------------------

/// The slots of an envelope and the resolution of its bands.
#[derive(Debug, Clone, Copy, PartialEq, Eq, Structural)]
pub struct EnvelopeSegment {
    pub start_slot: usize,
    pub stop_slot: usize,
    pub high_resolution: bool,
}

/// The number of bands between borders.
pub open spec fn band_count(borders: Seq<u8>) -> int {
    borders.len() - 1
}

/// The segment of an envelope, or nothing where it does not fit its slots or its
/// bands.
pub open spec fn segment_of(
    borders: Seq<u8>,
    resolution: Seq<bool>,
    high_bands: int,
    low_bands: int,
    values: Seq<usize>,
    slot_count: int,
    envelope: int,
) -> Option<EnvelopeSegment> {
    let start = borders[envelope] as int;
    let stop = borders[envelope + 1] as int;
    let bands = if resolution[envelope] {
        high_bands
    } else {
        low_bands
    };
    if stop > slot_count || start >= stop || values[envelope] != bands {
        None
    } else {
        Some(
            EnvelopeSegment {
                start_slot: start as usize,
                stop_slot: stop as usize,
                high_resolution: resolution[envelope],
            },
        )
    }
}

/// The segments from an envelope on, behind those before.
pub open spec fn segments_from(
    borders: Seq<u8>,
    resolution: Seq<bool>,
    high_bands: int,
    low_bands: int,
    values: Seq<usize>,
    slot_count: int,
    segments: Seq<EnvelopeSegment>,
) -> Result<Seq<EnvelopeSegment>, QmfError>
    decreases resolution.len() - segments.len(),
{
    if segments.len() >= resolution.len() {
        Ok(segments)
    } else {
        match segment_of(borders, resolution, high_bands, low_bands, values, slot_count, segments.len() as int) {
            None => Err(QmfError::EnvelopeLayoutMismatch),
            Some(segment) => segments_from(
                borders,
                resolution,
                high_bands,
                low_bands,
                values,
                slot_count,
                segments.push(segment),
            ),
        }
    }
}

/// Lists the slots and the resolution of each envelope of a grid. `values` is
/// the number of energies that each envelope has.
pub fn envelope_segments(
    grid: &LdSbrGrid,
    tables: &LdSbrFrequencyTables,
    values: &[usize],
    limiter_gains: u8,
    slot_count: usize,
) -> (result: Result<Vec<EnvelopeSegment>, QmfError>)
    requires
        grid.frequency_resolution@.len() > 0 ==> grid.frequency_resolution@.len() < grid.borders@.len(),
    ensures
        if values@.len() != grid.frequency_resolution@.len() || limiter_gains > 3 {
            result == Err::<Vec<EnvelopeSegment>, QmfError>(QmfError::EnvelopeLayoutMismatch)
        } else {
            match segments_from(
                grid.borders@,
                grid.frequency_resolution@,
                band_count(tables.high@),
                band_count(tables.low@),
                values@,
                slot_count as int,
                Seq::empty(),
            ) {
                Ok(expected) => result matches Ok(segments) && segments@ == expected,
                Err(error) => result == Err::<Vec<EnvelopeSegment>, QmfError>(error),
            }
        },
{
    assert(values@.len() == values.len());
    if values.len() != grid.frequency_resolution.len() || limiter_gains > 3 {
        return Err(QmfError::EnvelopeLayoutMismatch);
    }
    let mut segments: Vec<EnvelopeSegment> = Vec::new();
    while segments.len() < values.len()
        invariant
            values@.len() == values.len(),
            values@.len() == grid.frequency_resolution@.len(),
            values@.len() > 0 ==> values@.len() < grid.borders@.len(),
            segments@.len() <= values@.len(),
            segments_from(
                grid.borders@,
                grid.frequency_resolution@,
                band_count(tables.high@),
                band_count(tables.low@),
                values@,
                slot_count as int,
                Seq::empty(),
            ) == segments_from(
                grid.borders@,
                grid.frequency_resolution@,
                band_count(tables.high@),
                band_count(tables.low@),
                values@,
                slot_count as int,
                segments@,
            ),
        decreases values@.len() - segments@.len(),
    {
        let envelope: usize = segments.len();
        let start_slot: usize = grid.borders[envelope] as usize;
        let stop_slot: usize = grid.borders[envelope + 1] as usize;
        let high_resolution: bool = grid.frequency_resolution[envelope];
        let borders: usize = if high_resolution {
            tables.high.len()
        } else {
            tables.low.len()
        };
        if stop_slot > slot_count || start_slot >= stop_slot || borders == 0 || values[envelope] != borders - 1 {
            return Err(QmfError::EnvelopeLayoutMismatch);
        }
        segments.push(EnvelopeSegment { start_slot, stop_slot, high_resolution });
    }
    Ok(segments)
}

// ---------------------------------------------------------------------------
// Slots
// ---------------------------------------------------------------------------

/// What a slot belongs to.
#[derive(Debug, Clone, Copy, PartialEq, Eq, Structural)]
pub struct SlotPlan {
    pub envelope: usize,
    pub noise_envelope: usize,
    /// The place of the slot in its envelope.
    pub relative_slot: usize,
    /// Whether the envelope begins with a transient: no noise is added.
    pub attack: bool,
    /// Whether levels jump rather than glide.
    pub abrupt: bool,
    /// Whether the slot ends its envelope.
    pub last: bool,
}

/// What a slot belongs to, or why it belongs to nothing.
pub open spec fn plan_of(
    borders: Seq<u8>,
    noise_borders: Seq<u8>,
    transient: Option<usize>,
    previous_attack_first: bool,
    slot: int,
) -> Result<SlotPlan, QmfError> {
    match (interval_of(noise_borders, slot, 0), interval_of(borders, slot, 0)) {
        (Some(noise_envelope), Some(envelope)) => Ok(
            SlotPlan {
                envelope: envelope as usize,
                noise_envelope: noise_envelope as usize,
                relative_slot: (slot - borders[envelope]) as usize,
                attack: transient == Some(envelope as usize),
                abrupt: transient == Some(envelope as usize) || (previous_attack_first && envelope == 0),
                last: slot + 1 == borders[envelope + 1],
            },
        ),
        _ => Err(QmfError::EnvelopeLayoutMismatch),
    }
}

fn is_transient(transient: Option<usize>, envelope: usize) -> (found: bool)
    ensures
        found == (transient == Some(envelope)),
{
    match transient {
        Some(value) => value == envelope,
        None => false,
    }
}

/// Finds what a slot belongs to.
pub fn slot_plan(grid: &LdSbrGrid, previous_attack_first: bool, slot: usize) -> (result: Result<SlotPlan, QmfError>)
    ensures
        result == plan_of(
            grid.borders@,
            grid.noise_borders@,
            grid.transient_envelope,
            previous_attack_first,
            slot as int,
        ),
{
    let noise_envelope: usize = match border_index(grid.noise_borders.as_slice(), slot) {
        Some(index) => index,
        None => return Err(QmfError::EnvelopeLayoutMismatch),
    };
    let envelope: usize = match border_index(grid.borders.as_slice(), slot) {
        Some(index) => index,
        None => return Err(QmfError::EnvelopeLayoutMismatch),
    };
    let attack: bool = is_transient(grid.transient_envelope, envelope);
    assert(grid.borders@.len() == grid.borders.len());
    assert(grid.noise_borders@.len() == grid.noise_borders.len());
    Ok(
        SlotPlan {
            envelope,
            noise_envelope,
            relative_slot: slot - grid.borders[envelope] as usize,
            attack,
            abrupt: attack || (previous_attack_first && envelope == 0),
            last: slot < grid.borders[envelope + 1] as usize && slot + 1 == grid.borders[envelope + 1] as usize,
        },
    )
}

// ---------------------------------------------------------------------------
// Bands
// ---------------------------------------------------------------------------

/// The envelope of a slot and the scale factor band of a subband in it, or why
/// there is none.
pub open spec fn place_of(
    borders: Seq<u8>,
    resolution: Seq<bool>,
    high: Seq<u8>,
    low: Seq<u8>,
    slot: int,
    band: int,
) -> Result<(usize, usize), QmfError> {
    match interval_of(borders, slot, 0) {
        None => Err(QmfError::EnvelopeLayoutMismatch),
        Some(envelope) => match interval_of(
            if resolution[envelope] {
                high
            } else {
                low
            },
            band,
            0,
        ) {
            None => Err(QmfError::EnvelopeLayoutMismatch),
            Some(sfb) => Ok((envelope as usize, sfb as usize)),
        },
    }
}

/// Finds the envelope of a slot and the scale factor band of a subband in it.
pub fn envelope_band(grid: &LdSbrGrid, tables: &LdSbrFrequencyTables, slot: usize, band: usize) -> (result: Result<
    (usize, usize),
    QmfError,
>)
    requires
        grid.frequency_resolution@.len() + 1 >= grid.borders@.len(),
    ensures
        result == place_of(
            grid.borders@,
            grid.frequency_resolution@,
            tables.high@,
            tables.low@,
            slot as int,
            band as int,
        ),
{
    let envelope: usize = match border_index(grid.borders.as_slice(), slot) {
        Some(index) => index,
        None => return Err(QmfError::EnvelopeLayoutMismatch),
    };
    assert(grid.borders@.len() == grid.borders.len());
    let borders: &[u8] = if grid.frequency_resolution[envelope] {
        tables.high.as_slice()
    } else {
        tables.low.as_slice()
    };
    match border_index(borders, band) {
        Some(sfb) => Ok((envelope, sfb)),
        None => Err(QmfError::EnvelopeLayoutMismatch),
    }
}

// ---------------------------------------------------------------------------
// Laws
// ---------------------------------------------------------------------------

/// Whether borders never fall.
pub open spec fn borders_rise(borders: Seq<u8>) -> bool {
    forall|i: int, j: int| 0 <= i <= j < borders.len() ==> #[trigger] borders[i] <= #[trigger] borders[j]
}

/// A value outside all borders falls into no interval.
pub proof fn lemma_no_interval(borders: Seq<u8>, value: int, from: int)
    requires
        0 <= from,
        borders_rise(borders),
        borders.len() > 0 ==> value < borders[0] || value >= borders.last(),
    ensures
        interval_of(borders, value, from) is None,
    decreases borders.len() - from,
{
    if from + 1 < borders.len() {
        assert(borders[0] <= borders[from]);
        assert(borders[from + 1] <= borders[borders.len() - 1]);
        lemma_no_interval(borders, value, from + 1);
    }
}

/// A slot so many slots behind the beginning of an envelope, and in a noise envelope, belongs
/// to both. It is the last where the next one begins the next envelope; it attacks where its
/// envelope is the transient one, and only that or an attack before the first envelope lets
/// levels jump.
pub proof fn lemma_slot_belongs(
    borders: Seq<u8>,
    noise_borders: Seq<u8>,
    transient: Option<usize>,
    previous_attack_first: bool,
    envelope: int,
    noise_envelope: int,
    offset: int,
)
    requires
        borders_rise(borders),
        borders_rise(noise_borders),
        0 <= envelope < borders.len() - 1,
        borders.len() <= usize::MAX,
        0 <= noise_envelope < noise_borders.len() - 1,
        noise_borders.len() <= usize::MAX,
        0 <= offset < borders[envelope + 1] - borders[envelope],
        noise_borders[noise_envelope] <= borders[envelope] + offset < noise_borders[noise_envelope + 1],
    ensures
        plan_of(borders, noise_borders, transient, previous_attack_first, borders[envelope] + offset) matches Ok(plan)
            && {
            &&& plan.envelope == envelope
            &&& plan.noise_envelope == noise_envelope
            &&& plan.relative_slot == offset
            &&& plan.last == (offset == borders[envelope + 1] - borders[envelope] - 1)
            &&& plan.attack == (transient is Some && transient->0 == envelope)
            &&& plan.attack ==> plan.abrupt
            &&& envelope == 0 && previous_attack_first ==> plan.abrupt
            &&& plan.abrupt && !plan.attack ==> envelope == 0 && previous_attack_first
        },
{
    lemma_interval(borders, borders[envelope] + offset, envelope);
    lemma_interval(noise_borders, borders[envelope] + offset, noise_envelope);
}

/// A slot before or behind all envelopes belongs to nothing.
pub proof fn lemma_slot_outside(
    borders: Seq<u8>,
    noise_borders: Seq<u8>,
    transient: Option<usize>,
    previous_attack_first: bool,
    slot: int,
)
    requires
        borders_rise(borders),
        borders.len() > 0 ==> slot < borders[0] || slot >= borders.last(),
    ensures
        plan_of(borders, noise_borders, transient, previous_attack_first, slot) == Err::<SlotPlan, QmfError>(
            QmfError::EnvelopeLayoutMismatch,
        ),
{
    lemma_no_interval(borders, slot, 0);
}

/// A band between two borders of an envelope's own table is placed in that envelope and that
/// scale factor band.
pub proof fn lemma_band_placed(
    borders: Seq<u8>,
    resolution: Seq<bool>,
    high: Seq<u8>,
    low: Seq<u8>,
    envelope: int,
    sfb: int,
    slot: int,
    band: int,
)
    requires
        borders_rise(borders),
        borders_rise(high),
        borders_rise(low),
        0 <= envelope < borders.len() - 1,
        borders.len() <= usize::MAX,
        borders[envelope] <= slot < borders[envelope + 1],
        0 <= sfb,
        resolution[envelope] ==> sfb + 1 < high.len() <= usize::MAX && high[sfb] <= band < high[sfb + 1],
        !resolution[envelope] ==> sfb + 1 < low.len() <= usize::MAX && low[sfb] <= band < low[sfb + 1],
    ensures
        place_of(borders, resolution, high, low, slot, band) matches Ok(place) && place.0 == envelope && place.1 == sfb,
{
    lemma_interval(borders, slot, envelope);
    if resolution[envelope] {
        lemma_interval(high, band, sfb);
    } else {
        lemma_interval(low, band, sfb);
    }
}

/// Whether an envelope has slots among those there are and as many values as its table has
/// bands.
pub open spec fn envelope_fits(
    borders: Seq<u8>,
    resolution: Seq<bool>,
    high_bands: int,
    low_bands: int,
    values: Seq<usize>,
    slot_count: int,
    envelope: int,
) -> bool {
    &&& borders[envelope] < borders[envelope + 1] <= slot_count
    &&& resolution[envelope] ==> values[envelope] == high_bands
    &&& !resolution[envelope] ==> values[envelope] == low_bands
}

proof fn lemma_segments_behind(
    borders: Seq<u8>,
    resolution: Seq<bool>,
    high_bands: int,
    low_bands: int,
    values: Seq<usize>,
    slot_count: int,
    segments: Seq<EnvelopeSegment>,
)
    requires
        segments.len() <= resolution.len(),
        forall|i: int|
            0 <= i < segments.len() ==> (#[trigger] segments[i]).start_slot == borders[i] && segments[i].stop_slot == borders[i
                + 1] && segments[i].high_resolution == resolution[i],
    ensures
        ({
            let result = segments_from(borders, resolution, high_bands, low_bands, values, slot_count, segments);
            &&& (result is Ok) == forall|i: int|
                segments.len() <= i < resolution.len() ==> #[trigger] envelope_fits(
                    borders,
                    resolution,
                    high_bands,
                    low_bands,
                    values,
                    slot_count,
                    i,
                )
            &&& result matches Ok(list) ==> list.len() == resolution.len() && forall|i: int|
                0 <= i < list.len() ==> (#[trigger] list[i]).start_slot == borders[i] && list[i].stop_slot == borders[i + 1]
                    && list[i].high_resolution == resolution[i]
            &&& result matches Err(error) ==> error == QmfError::EnvelopeLayoutMismatch
        }),
    decreases resolution.len() - segments.len(),
{
    if segments.len() < resolution.len() {
        let at = segments.len() as int;
        let fits = envelope_fits(borders, resolution, high_bands, low_bands, values, slot_count, at);
        match segment_of(borders, resolution, high_bands, low_bands, values, slot_count, at) {
            None => {
                assert(!fits);
            },
            Some(segment) => {
                assert(fits);
                lemma_segments_behind(
                    borders,
                    resolution,
                    high_bands,
                    low_bands,
                    values,
                    slot_count,
                    segments.push(segment),
                );
            },
        }
    }
}

/// Every envelope gets the slots between its own two borders and its own resolution. The grid
/// is refused just where some envelope does not fit.
pub proof fn lemma_segments_follow_borders(
    borders: Seq<u8>,
    resolution: Seq<bool>,
    high_bands: int,
    low_bands: int,
    values: Seq<usize>,
    slot_count: int,
)
    ensures
        ({
            let result = segments_from(borders, resolution, high_bands, low_bands, values, slot_count, Seq::empty());
            &&& (result is Ok) == forall|i: int|
                0 <= i < resolution.len() ==> #[trigger] envelope_fits(
                    borders,
                    resolution,
                    high_bands,
                    low_bands,
                    values,
                    slot_count,
                    i,
                )
            &&& result matches Ok(list) ==> list.len() == resolution.len() && forall|i: int|
                0 <= i < list.len() ==> (#[trigger] list[i]).start_slot == borders[i] && list[i].stop_slot == borders[i + 1]
                    && list[i].high_resolution == resolution[i]
            &&& result matches Err(error) ==> error == QmfError::EnvelopeLayoutMismatch
        }),
{
    lemma_segments_behind(borders, resolution, high_bands, low_bands, values, slot_count, Seq::empty());
}

} // verus!
