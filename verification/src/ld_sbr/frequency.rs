//! Frequency band tables.

use vstd::prelude::*;

use crate::asc::LdSbrHeader;

use super::error::LdSbrError;
use super::log2::{lemma_log2_monotone, log2_of, log2_q25};
use super::widths::{
    all_positive, band_factor, band_widths, density_count, geometric_widths, lemma_band_factor, lemma_geometric_sum,
    logarithmic_widths, logarithmic_widths_for_density, rounded_border, width_sum,
};

verus! {

/// The borders of the master table and of the tables derived from it.
#[derive(Debug, PartialEq, Eq)]
pub struct LdSbrFrequencyTables {
    pub master: Vec<u8>,
    pub high: Vec<u8>,
    pub low: Vec<u8>,
    pub noise: Vec<u8>,
}

/// The borders as sequences.
pub struct FrequencyBorders {
    pub master: Seq<u8>,
    pub high: Seq<u8>,
    pub low: Seq<u8>,
    pub noise: Seq<u8>,
}

impl View for LdSbrFrequencyTables {
    type V = FrequencyBorders;

    open spec fn view(&self) -> FrequencyBorders {
        FrequencyBorders { master: self.master@, high: self.high@, low: self.low@, noise: self.noise@ }
    }
}

impl Clone for LdSbrFrequencyTables {
    fn clone(&self) -> (copy: LdSbrFrequencyTables)
        ensures
            copy@ == self@,
    {
        let master = self.master.clone();
        let high = self.high.clone();
        let low = self.low.clone();
        let noise = self.noise.clone();
        assert(master@ =~= self.master@ && high@ =~= self.high@ && low@ =~= self.low@ && noise@ =~= self.noise@);
        LdSbrFrequencyTables { master, high, low, noise }
    }
}

// ---------------------------------------------------------------------------
// Sorting
// ---------------------------------------------------------------------------

/// How many leading elements of a sequence are at most a value.
pub open spec fn place_of(sorted: Seq<u8>, value: u8) -> int
    decreases sorted.len(),
{
    if sorted.len() == 0 {
        0
    } else if sorted.last() <= value {
        sorted.len() as int
    } else {
        place_of(sorted.drop_last(), value)
    }
}

/// The elements of a sequence in ascending order.
pub open spec fn ascending(values: Seq<u8>) -> Seq<u8>
    decreases values.len(),
{
    if values.len() == 0 {
        Seq::empty()
    } else {
        let sorted = ascending(values.drop_last());
        sorted.insert(place_of(sorted, values.last()), values.last())
    }
}

proof fn lemma_place_of(sorted: Seq<u8>, value: u8)
    requires
        forall|i: int, j: int| 0 <= i <= j < sorted.len() ==> sorted[i] <= sorted[j],
    ensures
        0 <= place_of(sorted, value) <= sorted.len(),
        forall|i: int| 0 <= i < place_of(sorted, value) ==> #[trigger] sorted[i] <= value,
        forall|i: int| place_of(sorted, value) <= i < sorted.len() ==> #[trigger] sorted[i] > value,
    decreases sorted.len(),
{
    if sorted.len() > 0 && sorted.last() > value {
        lemma_place_of(sorted.drop_last(), value);
        assert forall|i: int| place_of(sorted, value) <= i < sorted.len() implies #[trigger] sorted[i] > value by {
            if i < sorted.len() - 1 {
                assert(sorted.drop_last()[i] > value);
            }
        }
        assert forall|i: int| 0 <= i < place_of(sorted, value) implies #[trigger] sorted[i] <= value by {
            assert(sorted.drop_last()[i] <= value);
        }
    }
}

proof fn lemma_insert_sum(values: Seq<u8>, at: int, value: u8)
    requires
        0 <= at <= values.len(),
    ensures
        width_sum(values.insert(at, value)) == width_sum(values) + value,
    decreases values.len(),
{
    let inserted = values.insert(at, value);
    if at == values.len() {
        assert(inserted.drop_last() =~= values);
    } else {
        lemma_insert_sum(values.drop_last(), at, value);
        assert(inserted.drop_last() =~= values.drop_last().insert(at, value));
    }
}

/// The ascending arrangement is ordered and holds what the sequence holds.
pub proof fn lemma_ascending(values: Seq<u8>)
    ensures
        ascending(values).len() == values.len(),
        forall|i: int, j: int| 0 <= i <= j < values.len() ==> ascending(values)[i] <= ascending(values)[j],
        ascending(values).to_multiset() == values.to_multiset(),
        width_sum(ascending(values)) == width_sum(values),
        all_positive(values) ==> all_positive(ascending(values)),
    decreases values.len(),
{
    broadcast use vstd::seq_lib::group_to_multiset_ensures;

    if values.len() > 0 {
        let shorter = values.drop_last();
        lemma_ascending(shorter);
        let sorted = ascending(shorter);
        let value = values.last();
        lemma_place_of(sorted, value);
        let at = place_of(sorted, value);
        lemma_insert_sum(sorted, at, value);
        assert(values =~= shorter.push(value));
        assert(sorted.insert(at, value).to_multiset() =~= sorted.to_multiset().insert(value)) by {
            vstd::seq_lib::to_multiset_insert(sorted, at, value);
        }
        assert(values.to_multiset() =~= shorter.to_multiset().insert(value));
        if all_positive(values) {
            assert forall|i: int| 0 <= i < shorter.len() implies #[trigger] shorter[i] > 0 by {
                assert(values[i] > 0);
            }
            assert(values[values.len() - 1] > 0);
        }
    } else {
        assert(ascending(values).to_multiset() =~= values.to_multiset());
    }
}

/// Sorts widths in ascending order.
pub fn sort_widths(values: &Vec<u8>) -> (sorted: Vec<u8>)
    ensures
        sorted@ == ascending(values@),
{
    let mut sorted: Vec<u8> = Vec::new();
    let mut index: usize = 0;
    assert(values@.take(0) =~= Seq::<u8>::empty());
    while index < values.len()
        invariant
            index <= values@.len(),
            sorted@ == ascending(values@.take(index as int)),
        decreases values@.len() - index,
    {
        let value: u8 = values[index];
        proof {
            lemma_ascending(values@.take(index as int));
            assert(values@.take(index + 1).drop_last() =~= values@.take(index as int));
        }
        let mut at: usize = sorted.len();
        let mut searching: bool = at > 0 && sorted[at - 1] > value;
        assert(sorted@.take(at as int) =~= sorted@);
        while searching
            invariant
                at <= sorted@.len(),
                searching == (at > 0 && sorted@[at - 1] > value),
                place_of(sorted@.take(at as int), value) == place_of(sorted@, value),
            decreases at,
        {
            assert(sorted@.take(at as int).drop_last() =~= sorted@.take(at - 1));
            at = at - 1;
            searching = at > 0 && sorted[at - 1] > value;
        }
        assert(place_of(sorted@.take(at as int), value) == at) by {
            if at > 0 {
                assert(sorted@.take(at as int).last() == sorted@[at - 1]);
            }
        }
        sorted.insert(at, value);
        index = index + 1;
    }
    assert(values@.take(index as int) =~= values@);
    sorted
}

// ---------------------------------------------------------------------------
// Start and stop bands
// ---------------------------------------------------------------------------

/// Whether start bands are defined at a sampling frequency.
pub open spec fn supported_rate(sampling_frequency: u32) -> bool {
    ||| sampling_frequency == 16_000
    ||| sampling_frequency == 22_050
    ||| sampling_frequency == 24_000
    ||| sampling_frequency == 32_000
    ||| sampling_frequency == 40_000
    ||| sampling_frequency == 44_100
    ||| sampling_frequency == 48_000
    ||| sampling_frequency == 64_000
    ||| sampling_frequency == 88_200
    ||| sampling_frequency == 96_000
}

/// The start bands at a sampling frequency.
pub open spec fn start_bands(sampling_frequency: u32) -> Seq<u8> {
    if sampling_frequency == 16_000 {
        seq![16, 17, 18, 19, 20, 21, 22, 23, 24, 25, 26, 27, 28, 29, 30, 31]
    } else if sampling_frequency == 22_050 {
        seq![12, 13, 14, 15, 16, 17, 18, 19, 20, 21, 22, 23, 24, 26, 28, 30]
    } else if sampling_frequency == 24_000 {
        seq![11, 13, 14, 15, 16, 17, 18, 19, 20, 21, 22, 23, 25, 27, 29, 32]
    } else if sampling_frequency == 32_000 {
        seq![10, 12, 14, 15, 16, 17, 18, 19, 20, 21, 22, 23, 25, 27, 29, 32]
    } else if sampling_frequency == 40_000 {
        seq![12, 13, 14, 15, 16, 17, 18, 19, 20, 21, 22, 24, 26, 28, 30, 32]
    } else if sampling_frequency == 44_100 {
        seq![8, 10, 11, 12, 13, 14, 15, 16, 17, 18, 19, 21, 23, 25, 28, 32]
    } else if sampling_frequency == 48_000 {
        seq![7, 9, 10, 11, 12, 13, 14, 15, 16, 17, 18, 20, 22, 24, 27, 31]
    } else if sampling_frequency == 64_000 {
        seq![6, 8, 9, 10, 11, 12, 13, 14, 15, 16, 17, 19, 21, 23, 26, 30]
    } else {
        seq![5, 6, 7, 8, 9, 10, 11, 12, 13, 14, 16, 18, 20, 23, 27, 31]
    }
}

/// The start band of an index, where there is one.
pub open spec fn start_of(sampling_frequency: u32, index: u8) -> Option<u8> {
    if supported_rate(sampling_frequency) && index < 16 {
        Some(start_bands(sampling_frequency)[index as int])
    } else {
        None
    }
}

/// The start band of an index.
pub fn start_band(sampling_frequency: u32, index: u8) -> (result: Option<u8>)
    ensures
        result == start_of(sampling_frequency, index),
        result matches Some(band) ==> 5 <= band <= 32,
{
    let table: [u8; 16] = match sampling_frequency {
        16_000 => [16, 17, 18, 19, 20, 21, 22, 23, 24, 25, 26, 27, 28, 29, 30, 31],
        22_050 => [12, 13, 14, 15, 16, 17, 18, 19, 20, 21, 22, 23, 24, 26, 28, 30],
        24_000 => [11, 13, 14, 15, 16, 17, 18, 19, 20, 21, 22, 23, 25, 27, 29, 32],
        32_000 => [10, 12, 14, 15, 16, 17, 18, 19, 20, 21, 22, 23, 25, 27, 29, 32],
        40_000 => [12, 13, 14, 15, 16, 17, 18, 19, 20, 21, 22, 24, 26, 28, 30, 32],
        44_100 => [8, 10, 11, 12, 13, 14, 15, 16, 17, 18, 19, 21, 23, 25, 28, 32],
        48_000 => [7, 9, 10, 11, 12, 13, 14, 15, 16, 17, 18, 20, 22, 24, 27, 31],
        64_000 => [6, 8, 9, 10, 11, 12, 13, 14, 15, 16, 17, 19, 21, 23, 26, 30],
        88_200 | 96_000 => [5, 6, 7, 8, 9, 10, 11, 12, 13, 14, 16, 18, 20, 23, 27, 31],
        _ => {
            return None;
        },
    };
    assert(table@ =~= start_bands(sampling_frequency));
    if index < 16 {
        Some(table[index as usize])
    } else {
        None
    }
}

/// The lowest stop band at a sampling frequency.
pub open spec fn lowest_stop(sampling_frequency: u32) -> u8 {
    let hertz: int = if sampling_frequency < 32_000 {
        6_000
    } else if sampling_frequency < 64_000 {
        8_000
    } else {
        10_000
    };
    let band = (hertz * 128 + sampling_frequency / 2) / sampling_frequency as int;
    if band < 64 {
        band as u8
    } else {
        64
    }
}

/// The stop band of an index before it is held against the start band. No bands
/// in geometric progression begin at zero.
pub open spec fn stop_candidate(sampling_frequency: u32, index: u8, k0: u8) -> Option<int> {
    if index <= 13 {
        let lowest = lowest_stop(sampling_frequency);
        if lowest == 0 {
            None
        } else {
            match band_widths(lowest, 64, 13) {
                Ok(widths) => Some(lowest + width_sum(ascending(widths).take(index as int))),
                Err(_) => None,
            }
        }
    } else if index == 14 {
        Some(if 2 * k0 < 64 { 2 * k0 } else { 64 })
    } else if index == 15 {
        Some(if 3 * k0 < 64 { 3 * k0 } else { 64 })
    } else {
        None
    }
}

/// The stop band of an index, where it lies above the start band and at most 56
/// bands above it.
pub open spec fn stop_of(sampling_frequency: u32, index: u8, k0: u8) -> Option<u8> {
    match stop_candidate(sampling_frequency, index, k0) {
        Some(value) => if value > k0 && value - k0 <= 56 {
            Some(value as u8)
        } else {
            None
        },
        None => None,
    }
}

/// The widths of valid bands sum up to at most the stop band.
proof fn lemma_widths_sum(start: u8, stop: u8, count: nat)
    requires
        1 <= start,
        band_widths(start, stop, count) is Ok,
    ensures
        0 <= width_sum(band_widths(start, stop, count)->Ok_0) <= stop,
{
    let factor = band_factor(start, stop, count);
    lemma_band_factor(start, stop, count);
    lemma_geometric_sum(start, stop, count, factor, count);
    let widths = geometric_widths(start, stop, count);
    assert(widths.take(count as int) =~= widths);
    lemma_border_range(stop, factor, count);
    lemma_sum_nonnegative(widths);
}

proof fn lemma_border_range(stop: u8, factor: int, count: nat)
    requires
        0 <= factor <= 0x7fff,
    ensures
        0 <= rounded_border(stop, factor, count),
        rounded_border(stop, factor, 0) == stop,
{
    super::widths::lemma_exact_bounds(stop, factor, count);
}

proof fn lemma_sum_nonnegative(widths: Seq<u8>)
    ensures
        0 <= width_sum(widths) <= 255 * widths.len(),
    decreases widths.len(),
{
    if widths.len() > 0 {
        lemma_sum_nonnegative(widths.drop_last());
    }
}

proof fn lemma_prefix_sum(widths: Seq<u8>, count: int)
    requires
        0 <= count <= widths.len(),
    ensures
        0 <= width_sum(widths.take(count)) <= width_sum(widths),
    decreases widths.len() - count,
{
    if count < widths.len() {
        lemma_prefix_sum(widths, count + 1);
        assert(widths.take(count + 1).drop_last() =~= widths.take(count));
    } else {
        assert(widths.take(count) =~= widths);
    }
    lemma_sum_nonnegative(widths.take(count));
}

/// The stop band of an index.
pub fn stop_band(sampling_frequency: u32, index: u8, k0: u8) -> (result: Option<u8>)
    requires
        index <= 13 ==> sampling_frequency > 0,
    ensures
        result == stop_of(sampling_frequency, index, k0),
        result matches Some(band) ==> k0 < band <= 128,
        k0 <= 32 ==> (result matches Some(band) ==> band <= 88),
{
    let value: u32 = if index <= 13 {
        let hertz: u32 = if sampling_frequency < 32_000 {
            6_000
        } else if sampling_frequency < 64_000 {
            8_000
        } else {
            10_000
        };
        let size: u32 = hertz * 128 + sampling_frequency / 2;
        assert(0 <= size as int / sampling_frequency as int) by (nonlinear_arith)
            requires
                sampling_frequency > 0,
        ;
        let band: u32 = size / sampling_frequency;
        let lowest: u8 = if band < 64 {
            band as u8
        } else {
            64
        };
        assert(lowest == lowest_stop(sampling_frequency));
        if lowest == 0 {
            return None;
        }
        let widths: Vec<u8> = match logarithmic_widths(lowest, 64, 13) {
            Ok(widths) => widths,
            Err(_) => {
                return None;
            },
        };
        let sorted: Vec<u8> = sort_widths(&widths);
        proof {
            lemma_ascending(widths@);
            lemma_widths_sum(lowest, 64, 13);
        }
        let mut sum: u32 = 0;
        let mut taken: usize = 0;
        assert(sorted@.take(0) =~= Seq::<u8>::empty());
        while taken < index as usize
            invariant
                taken <= index <= 13,
                sorted@.len() == 13,
                width_sum(sorted@) <= 64,
                sum == width_sum(sorted@.take(taken as int)),
            decreases index - taken,
        {
            proof {
                lemma_prefix_sum(sorted@, taken + 1);
                assert(sorted@.take(taken + 1).drop_last() =~= sorted@.take(taken as int));
            }
            sum = sum + sorted[taken] as u32;
            taken = taken + 1;
        }
        proof {
            lemma_prefix_sum(sorted@, index as int);
        }
        lowest as u32 + sum
    } else if index == 14 {
        if 2 * (k0 as u32) < 64 {
            2 * (k0 as u32)
        } else {
            64
        }
    } else if index == 15 {
        if 3 * (k0 as u32) < 64 {
            3 * (k0 as u32)
        } else {
            64
        }
    } else {
        return None;
    };
    if value > k0 as u32 && value - k0 as u32 <= 56 {
        Some(value as u8)
    } else {
        None
    }
}

// ---------------------------------------------------------------------------
// The master table
// ---------------------------------------------------------------------------

/// The borders that widths make above a first border.
pub open spec fn borders_of(start: u8, widths: Seq<u8>) -> Seq<u8>
    decreases widths.len(),
{
    if widths.len() == 0 {
        seq![start]
    } else {
        let before = borders_of(start, widths.drop_last());
        before.push((before.last() + widths.last()) as u8)
    }
}

proof fn lemma_borders(start: u8, widths: Seq<u8>)
    requires
        start + width_sum(widths) <= 255,
    ensures
        borders_of(start, widths).len() == widths.len() + 1,
        borders_of(start, widths)[0] == start,
        borders_of(start, widths).last() == start + width_sum(widths),
        all_positive(widths) ==> strictly_rising(borders_of(start, widths)) && widths.len() <= width_sum(widths),
    decreases widths.len(),
{
    if widths.len() > 0 {
        lemma_sum_nonnegative(widths.drop_last());
        lemma_borders(start, widths.drop_last());
        if all_positive(widths) {
            let before = borders_of(start, widths.drop_last());
            assert forall|i: int| 0 <= i < widths.drop_last().len() implies #[trigger] widths.drop_last()[i] > 0 by {
                assert(widths[i] > 0);
            }
            assert(widths[widths.len() - 1] > 0);
            let after = borders_of(start, widths);
            assert forall|i: int, j: int| 0 <= i < j < after.len() implies after[i] < after[j] by {
                if j < before.len() {
                    assert(before[i] < before[j]);
                } else if i < before.len() - 1 {
                    assert(before[i] < before[before.len() - 1]);
                }
            }
        }
    }
}

/// Whether a sequence of borders rises at every step.
pub open spec fn strictly_rising(borders: Seq<u8>) -> bool {
    forall|i: int, j: int| 0 <= i < j < borders.len() ==> borders[i] < borders[j]
}

/// The borders that widths make above a first border.
pub fn cumulative(start: u8, widths: &Vec<u8>) -> (borders: Vec<u8>)
    requires
        start + width_sum(widths@) <= 255,
    ensures
        borders@ == borders_of(start, widths@),
        borders@.len() == widths@.len() + 1,
{
    let mut borders: Vec<u8> = Vec::new();
    borders.push(start);
    let mut last: u8 = start;
    let mut index: usize = 0;
    assert(widths@.take(0) =~= Seq::<u8>::empty());
    assert(borders@ =~= borders_of(start, widths@.take(0)));
    while index < widths.len()
        invariant
            index <= widths@.len(),
            start + width_sum(widths@) <= 255,
            borders@ == borders_of(start, widths@.take(index as int)),
            borders@.len() == index + 1,
            last == borders@.last(),
            last == start + width_sum(widths@.take(index as int)),
        decreases widths@.len() - index,
    {
        proof {
            lemma_prefix_sum(widths@, index + 1);
            assert(widths@.take(index + 1).drop_last() =~= widths@.take(index as int));
        }
        last = last + widths[index];
        borders.push(last);
        index = index + 1;
    }
    assert(widths@.take(index as int) =~= widths@);
    borders
}

/// The number of bands of a uniform master table.
pub open spec fn uniform_count(span: int, alter: bool) -> int {
    let even = if alter {
        (span / 2 + 1) / 2 * 2
    } else {
        span / 2 * 2
    };
    if even < 2 {
        2
    } else {
        even
    }
}

/// The widths of a uniform master table: one or two bands each, the first ones
/// narrower or the last ones wider where they do not sum up to the span.
pub open spec fn uniform_widths(k0: u8, k2: u8, alter: bool) -> Seq<u8> {
    let span = k2 - k0;
    let count = uniform_count(span, alter);
    let width: int = if alter {
        2
    } else {
        1
    };
    let difference = span - count * width;
    Seq::new(
        count as nat,
        |i: int|
            if i < -difference {
                (width - 1) as u8
            } else if i >= count - difference {
                (width + 1) as u8
            } else {
                width as u8
            },
    )
}

/// The density of a frequency scale in fifteen fractional bits of a sixteenth
/// per octave: twelve, ten or eight bands.
pub open spec fn scale_density(scale: u8) -> int {
    if scale == 1 {
        0x6000
    } else if scale == 2 {
        0x5000
    } else {
        0x4000
    }
}

/// Whether a master table has a second region.
pub open spec fn has_second_region(k0: u8, k2: u8) -> bool {
    1000 * k2 > 2245 * k0
}

/// By how much the first width of the second region grows so that it is not
/// below the last one of the first region.
pub open spec fn region_change(first: Seq<u8>, second: Seq<u8>) -> int {
    if first.last() > second[0] {
        let gap = first.last() - second[0];
        let room = (second.last() - second[0]) / 2;
        if gap < room {
            gap
        } else {
            room
        }
    } else {
        0
    }
}

/// The widths of the second region, matched to the first.
pub open spec fn matched_region(first: Seq<u8>, second: Seq<u8>) -> Seq<u8> {
    if first.last() > second[0] {
        let change = region_change(first, second);
        let raised = second.update(0, (second[0] + change) as u8);
        ascending(raised.update(raised.len() - 1, (raised.last() - change) as u8))
    } else {
        second
    }
}

/// The widths of a master table.
pub open spec fn master_widths(k0: u8, k2: u8, scale: u8, alter: bool) -> Result<Seq<u8>, LdSbrError> {
    if scale == 0 {
        Ok(uniform_widths(k0, k2, alter))
    } else {
        let density = scale_density(scale);
        let k1 = if has_second_region(k0, k2) {
            (2 * k0) as u8
        } else {
            k2
        };
        match band_widths(k0, k1, density_count(k0, k1, density, false) as nat) {
            Err(error) => Err(error),
            Ok(first) => if !has_second_region(k0, k2) {
                Ok(ascending(first))
            } else {
                match band_widths(k1, k2, density_count(k1, k2, density, alter) as nat) {
                    Err(error) => Err(error),
                    Ok(second) => Ok(ascending(first) + matched_region(ascending(first), ascending(second))),
                }
            },
        }
    }
}

/// The borders of a master table.
pub open spec fn master_borders(k0: u8, k2: u8, scale: u8, alter: bool) -> Result<Seq<u8>, LdSbrError> {
    match master_widths(k0, k2, scale, alter) {
        Ok(widths) => Ok(borders_of(k0, widths)),
        Err(error) => Err(error),
    }
}

proof fn lemma_update_sum(values: Seq<u8>, at: int, value: u8)
    requires
        0 <= at < values.len(),
    ensures
        width_sum(values.update(at, value)) == width_sum(values) - values[at] + value,
    decreases values.len(),
{
    let updated = values.update(at, value);
    if at == values.len() - 1 {
        assert(updated.drop_last() =~= values.drop_last());
    } else {
        lemma_update_sum(values.drop_last(), at, value);
        assert(updated.drop_last() =~= values.drop_last().update(at, value));
    }
}

proof fn lemma_concat_sum(first: Seq<u8>, second: Seq<u8>)
    ensures
        width_sum(first + second) == width_sum(first) + width_sum(second),
    decreases second.len(),
{
    if second.len() == 0 {
        assert(first + second =~= first);
    } else {
        lemma_concat_sum(first, second.drop_last());
        assert((first + second).drop_last() =~= first + second.drop_last());
    }
}

/// Matching the second region keeps its sum, and no width becomes empty.
proof fn lemma_matched_region(first: Seq<u8>, second: Seq<u8>)
    requires
        first.len() > 0,
        second.len() > 0,
        all_positive(second),
        forall|i: int, j: int| 0 <= i <= j < second.len() ==> second[i] <= second[j],
    ensures
        width_sum(matched_region(first, second)) == width_sum(second),
        matched_region(first, second).len() == second.len(),
        all_positive(matched_region(first, second)),
{
    if first.last() > second[0] {
        let change = region_change(first, second);
        assert(second[0] <= second[second.len() - 1]);
        assert(0 <= change <= second.last() - second[0]);
        let raised = second.update(0, (second[0] + change) as u8);
        lemma_update_sum(second, 0, (second[0] + change) as u8);
        let lowered = raised.update(raised.len() - 1, (raised.last() - change) as u8);
        lemma_update_sum(raised, raised.len() - 1, (raised.last() - change) as u8);
        assert(second[0] > 0);
        assert forall|i: int| 0 <= i < lowered.len() implies #[trigger] lowered[i] > 0 by {
            assert(second[i] > 0);
        }
        lemma_ascending(lowered);
    }
}

/// The widths of a uniform master table.
fn make_uniform_widths(k0: u8, k2: u8, alter: bool) -> (widths: Vec<u8>)
    requires
        k0 <= k2,
    ensures
        widths@ == uniform_widths(k0, k2, alter),
        2 <= widths@.len() <= 254,
{
    let span: i32 = k2 as i32 - k0 as i32;
    let even: i32 = if alter {
        (span / 2 + 1) / 2 * 2
    } else {
        span / 2 * 2
    };
    let count: i32 = if even < 2 {
        2
    } else {
        even
    };
    let width: i32 = if alter {
        2
    } else {
        1
    };
    let difference: i32 = if alter {
        span - count * 2
    } else {
        span - count
    };
    let ghost wanted = uniform_widths(k0, k2, alter);
    let mut widths: Vec<u8> = Vec::new();
    let mut index: i32 = 0;
    while index < count
        invariant
            0 <= index <= count <= 254,
            1 <= width <= 2,
            -4 <= difference <= 4,
            wanted == uniform_widths(k0, k2, alter),
            span == k2 - k0,
            count == uniform_count(span as int, alter),
            width == (if alter { 2int } else { 1int }),
            difference == span - count * width,
            widths@.len() == index,
            forall|i: int| 0 <= i < index ==> #[trigger] widths@[i] == wanted[i],
        decreases count - index,
    {
        let value: i32 = if index < -difference {
            width - 1
        } else if index >= count - difference {
            width + 1
        } else {
            width
        };
        widths.push(value as u8);
        index = index + 1;
    }
    assert(widths@ =~= wanted);
    widths
}

/// The sum of the first widths of a uniform table: the narrow ones in front and
/// the wide ones behind are counted apart.
proof fn lemma_uniform_prefix(k0: u8, k2: u8, alter: bool, taken: int)
    requires
        k0 <= k2,
        0 <= taken <= uniform_count(k2 - k0, alter),
    ensures
        ({
            let count = uniform_count(k2 - k0, alter);
            let width: int = if alter { 2 } else { 1 };
            let difference = k2 - k0 - count * width;
            let narrow = if difference >= 0 { 0 } else if taken < -difference { taken } else { -difference };
            let wide = if taken > count - difference { taken - (count - difference) } else { 0 };
            width_sum(uniform_widths(k0, k2, alter).take(taken)) == taken * width - narrow + wide
        }),
    decreases taken,
{
    let widths = uniform_widths(k0, k2, alter);
    if taken > 0 {
        lemma_uniform_prefix(k0, k2, alter, taken - 1);
        assert(widths.take(taken).drop_last() =~= widths.take(taken - 1));
        assert(widths.take(taken).last() == widths[taken - 1]);
    } else {
        assert(widths.take(0) =~= Seq::<u8>::empty());
    }
}

/// The widths of a uniform table sum up to its span, but two wide bands do not
/// become empty where the span is below two.
pub proof fn lemma_uniform_sum(k0: u8, k2: u8, alter: bool)
    requires
        k0 <= k2,
    ensures
        width_sum(uniform_widths(k0, k2, alter)) == (if alter && k2 - k0 < 2 { 2 } else { k2 - k0 }),
{
    let widths = uniform_widths(k0, k2, alter);
    lemma_uniform_prefix(k0, k2, alter, uniform_count(k2 - k0, alter));
    assert(widths.take(widths.len() as int) =~= widths);
}

/// Matches the widths of the second region to the first.
fn match_region(first: &Vec<u8>, second: Vec<u8>) -> (matched: Vec<u8>)
    requires
        first@.len() > 0,
        second@.len() > 0,
        forall|i: int, j: int| 0 <= i <= j < second@.len() ==> second@[i] <= second@[j],
    ensures
        matched@ == matched_region(first@, second@),
{
    let ghost before = second@;
    let mut matched: Vec<u8> = second;
    let last_first: u8 = first[first.len() - 1];
    if last_first > matched[0] {
        let last: usize = matched.len() - 1;
        assert(before[0] <= before[last as int]);
        let gap: u8 = last_first - matched[0];
        let room: u8 = (matched[last] - matched[0]) / 2;
        let change: u8 = if gap < room {
            gap
        } else {
            room
        };
        let raised: u8 = matched[0] + change;
        matched.set(0, raised);
        let lowered: u8 = matched[last] - change;
        matched.set(last, lowered);
        return sort_widths(&matched);
    }
    matched
}

/// Appends widths to widths.
fn join_widths(first: Vec<u8>, second: &Vec<u8>) -> (joined: Vec<u8>)
    ensures
        joined@ == first@ + second@,
{
    let ghost head = first@;
    let mut joined: Vec<u8> = first;
    let mut index: usize = 0;
    assert(head + second@.take(0) =~= head);
    while index < second.len()
        invariant
            index <= second@.len(),
            joined@ == head + second@.take(index as int),
        decreases second@.len() - index,
    {
        joined.push(second[index]);
        index = index + 1;
        assert(joined@ =~= head + second@.take(index as int));
    }
    assert(second@.take(index as int) =~= second@);
    joined
}

proof fn lemma_all_positive_concat(first: Seq<u8>, second: Seq<u8>)
    requires
        all_positive(first),
        all_positive(second),
    ensures
        all_positive(first + second),
{
    assert forall|i: int| 0 <= i < (first + second).len() implies #[trigger] (first + second)[i] > 0 by {
        if i < first.len() {
            assert(first[i] > 0);
        } else {
            assert(second[i - first.len()] > 0);
        }
    }
}

/// The sorted widths of a region at a density.
fn sorted_region(start: u8, stop: u8, density: i64, warp: bool) -> (result: Result<Vec<u8>, LdSbrError>)
    requires
        start == stop || (1 <= start && 1 <= stop),
        0 <= density <= 0x8000,
    ensures
        match band_widths(start, stop, density_count(start, stop, density as int, warp) as nat) {
            Ok(widths) => {
                &&& result matches Ok(list) && list@ == ascending(widths) && list@.len() >= 1 && all_positive(list@)
                    && 0 <= width_sum(list@) <= stop && (forall|i: int, j: int|
                    0 <= i <= j < list@.len() ==> list@[i] <= list@[j])
            },
            Err(error) => result == Err::<Vec<u8>, LdSbrError>(error),
        },
{
    match logarithmic_widths_for_density(start, stop, density, warp) {
        Ok(widths) => {
            proof {
                lemma_ascending(widths@);
                lemma_widths_sum(start, stop, density_count(start, stop, density as int, warp) as nat);
            }
            Ok(sort_widths(&widths))
        },
        Err(error) => Err(error),
    }
}

/// The borders of a uniform table rise, but for a span of one or none without
/// wide bands.
proof fn lemma_uniform_borders(k0: u8, k2: u8, alter: bool)
    requires
        k0 <= k2,
    ensures
        alter || k2 - k0 >= 2 ==> all_positive(uniform_widths(k0, k2, alter)),
        !alter && k2 - k0 <= 1 ==> borders_of(k0, uniform_widths(k0, k2, alter)) == seq![k0, k0, k2],
{
    let widths = uniform_widths(k0, k2, alter);
    if alter || k2 - k0 >= 2 {
        assert forall|i: int| 0 <= i < widths.len() implies #[trigger] widths[i] > 0 by {
        }
    } else {
        assert(widths =~= seq![0u8, (k2 - k0) as u8]);
        let shorter = widths.drop_last();
        assert(shorter =~= seq![0u8]);
        assert(shorter.drop_last() =~= Seq::<u8>::empty());
        reveal_with_fuel(width_sum, 3);
        reveal_with_fuel(borders_of, 3);
        assert(borders_of(k0, widths) =~= seq![k0, k0, k2]);
    }
}

/// Whether the borders of a master table, where it has any, fit in bytes.
#[verifier::opaque]
pub open spec fn master_fits(k0: u8, k2: u8, scale: u8, alter: bool) -> bool {
    master_widths(k0, k2, scale, alter) matches Ok(widths) ==> k0 + width_sum(widths) <= 255
}

/// A master table whose bands are low enough fits.
pub proof fn lemma_master_fits(k0: u8, k2: u8, scale: u8, alter: bool)
    requires
        k0 <= k2,
        scale != 0 ==> 1 <= k0,
        k0 + k2 <= 255,
        has_second_region(k0, k2) ==> 3 * k0 + k2 <= 255,
    ensures
        master_fits(k0, k2, scale, alter),
{
    reveal(master_fits);
    if scale == 0 {
        lemma_uniform_sum(k0, k2, alter);
    } else {
        let density = scale_density(scale);
        let k1 = if has_second_region(k0, k2) {
            (2 * k0) as u8
        } else {
            k2
        };
        let count = density_count(k0, k1, density, false) as nat;
        if band_widths(k0, k1, count) is Ok {
            let first = band_widths(k0, k1, count)->Ok_0;
            lemma_widths_sum(k0, k1, count);
            lemma_ascending(first);
            let behind = density_count(k1, k2, density, alter) as nat;
            if has_second_region(k0, k2) && band_widths(k1, k2, behind) is Ok {
                let second = band_widths(k1, k2, behind)->Ok_0;
                lemma_widths_sum(k1, k2, behind);
                lemma_ascending(second);
                lemma_matched_region(ascending(first), ascending(second));
                lemma_concat_sum(ascending(first), matched_region(ascending(first), ascending(second)));
            }
        }
    }
}

/// The widths of a master table in geometric progression.
fn make_scaled_widths(k0: u8, k2: u8, scale: u8, alter: bool) -> (result: Result<Vec<u8>, LdSbrError>)
    requires
        scale != 0,
        k0 == k2 || (1 <= k0 && 1 <= k2),
    ensures
        match master_widths(k0, k2, scale, alter) {
            Ok(widths) => result matches Ok(list) && list@ == widths && all_positive(widths) && widths.len() >= 1,
            Err(error) => result == Err::<Vec<u8>, LdSbrError>(error),
        },
{
    let density: i64 = match scale {
        1 => 0x6000,
        2 => 0x5000,
        _ => 0x4000,
    };
    let split: bool = 1000 * (k2 as u32) > 2245 * (k0 as u32);
    let k1: u8 = if split {
        k0 * 2
    } else {
        k2
    };
    let first: Vec<u8> = match sorted_region(k0, k1, density, false) {
        Ok(widths) => widths,
        Err(error) => {
            return Err(error);
        },
    };
    if !split {
        return Ok(first);
    }
    let second: Vec<u8> = match sorted_region(k1, k2, density, alter) {
        Ok(widths) => widths,
        Err(error) => {
            return Err(error);
        },
    };
    proof {
        lemma_matched_region(first@, second@);
    }
    let matched: Vec<u8> = match_region(&first, second);
    proof {
        lemma_all_positive_concat(first@, matched@);
    }
    Ok(join_widths(first, &matched))
}

/// Makes the borders of a master table. A uniform table does not end below its
/// start, another one does not begin or end at zero, and the borders fit.
pub fn make_master(k0: u8, k2: u8, scale: u8, alter: bool) -> (result: Result<Vec<u8>, LdSbrError>)
    requires
        scale == 0 ==> k0 <= k2,
        scale != 0 ==> k0 == k2 || (1 <= k0 && 1 <= k2),
        master_fits(k0, k2, scale, alter),
    ensures
        match master_borders(k0, k2, scale, alter) {
            Ok(borders) => result matches Ok(list) && list@ == borders && 2 <= borders.len() <= 256 && borders[0] == k0,
            Err(error) => result == Err::<Vec<u8>, LdSbrError>(error),
        },
        result matches Ok(list) ==> (scale != 0 || alter || k2 - k0 >= 2 ==> strictly_rising(list@)),
        scale == 0 && !alter && k2 - k0 <= 1 ==> (result matches Ok(list) && list@ == seq![k0, k0, k2]),
{
    let widths: Vec<u8> = if scale == 0 {
        proof {
            lemma_uniform_borders(k0, k2, alter);
        }
        make_uniform_widths(k0, k2, alter)
    } else {
        match make_scaled_widths(k0, k2, scale, alter) {
            Ok(widths) => widths,
            Err(error) => {
                return Err(error);
            },
        }
    };
    proof {
        reveal(master_fits);
        lemma_borders(k0, widths@);
    }
    Ok(cumulative(k0, &widths))
}

// ---------------------------------------------------------------------------
// Derived tables
// ---------------------------------------------------------------------------

/// Every second border: all even ones where the number of bands is even, the
/// first and all odd ones otherwise.
pub open spec fn halved_borders(high: Seq<u8>) -> Seq<u8> {
    let bands = high.len() - 1;
    if bands % 2 == 0 {
        Seq::new((bands / 2 + 1) as nat, |i: int| high[2 * i])
    } else {
        Seq::new(
            ((bands + 1) / 2 + 1) as nat,
            |i: int|
                if i == 0 {
                    high[0]
                } else {
                    high[2 * i - 1]
                },
        )
    }
}

/// Thinning borders out: from `index` on, `source` bands are left and shall
/// become `wanted` bands behind those chosen before.
pub open spec fn thin_out(borders: Seq<u8>, index: int, source: int, wanted: int, chosen: Seq<u8>) -> Seq<u8>
    decreases wanted,
{
    if source <= 0 || wanted <= 0 {
        chosen
    } else {
        let step = source / wanted;
        thin_out(borders, index + step, source - step, wanted - 1, chosen.push(borders[index + step]))
    }
}

/// At most `count` bands out of the bands between borders.
pub open spec fn thinned_borders(borders: Seq<u8>, count: int) -> Seq<u8> {
    thin_out(borders, 0, borders.len() - 1, count, seq![borders[0]])
}

/// Thins borders out to `count` bands.
pub fn downsample_borders(source: &Vec<u8>, count: usize) -> (result: Vec<u8>)
    requires
        source@.len() >= 1,
        source@.len() > 1 ==> count >= 1,
    ensures
        result@ == thinned_borders(source@, count as int),
        result@.len() >= 1,
        result@[0] == source@[0],
        result@.last() == source@.last(),
        result@.len() <= count + 1,
        count <= source@.len() - 1 ==> result@.len() == count + 1,
        strictly_rising(source@) && count <= source@.len() - 1 ==> strictly_rising(result@),
{
    let mut result: Vec<u8> = Vec::new();
    result.push(source[0]);
    let len: usize = source.len();
    let mut remaining_source: usize = len - 1;
    let mut remaining_result: usize = count;
    let mut index: usize = 0;
    assert(result@ =~= seq![source@[0]]);
    while remaining_source > 0
        invariant
            len == source@.len(),
            index + remaining_source == source@.len() - 1,
            remaining_source > 0 ==> remaining_result >= 1,
            remaining_result <= count,
            result@.len() >= 1,
            result@.len() + remaining_result == count + 1,
            result@[0] == source@[0],
            result@.last() == source@[index as int],
            count <= source@.len() - 1 ==> remaining_result <= remaining_source,
            strictly_rising(source@) && count <= source@.len() - 1 ==> strictly_rising(result@),
            thin_out(source@, index as int, remaining_source as int, remaining_result as int, result@)
                == thinned_borders(source@, count as int),
        decreases remaining_result,
    {
        let step: usize = remaining_source / remaining_result;
        assert(step <= remaining_source) by (nonlinear_arith)
            requires
                step == remaining_source / remaining_result,
                remaining_result >= 1,
        ;
        proof {
            if remaining_result == 1 {
                assert(remaining_source / 1 == remaining_source);
            }
            if remaining_result >= 2 && remaining_source > 0 {
                assert(step < remaining_source) by (nonlinear_arith)
                    requires
                        step == remaining_source / remaining_result,
                        remaining_result >= 2,
                        remaining_source > 0,
                ;
            }
            if remaining_result <= remaining_source {
                assert(step >= 1) by (nonlinear_arith)
                    requires
                        step == remaining_source / remaining_result,
                        1 <= remaining_result <= remaining_source,
                ;
                assert(remaining_result - 1 <= remaining_source - step) by (nonlinear_arith)
                    requires
                        step == remaining_source / remaining_result,
                        1 <= remaining_result <= remaining_source,
                ;
            }
        }
        let ghost before = result@;
        let ghost from = index as int;
        index = index + step;
        result.push(source[index]);
        remaining_source = remaining_source - step;
        remaining_result = remaining_result - 1;
        proof {
            if strictly_rising(source@) && count <= source@.len() - 1 {
                assert(source@[from] < source@[index as int]);
                assert forall|i: int, j: int| 0 <= i < j < result@.len() implies result@[i] < result@[j] by {
                    if j < before.len() {
                        assert(before[i] < before[j]);
                    } else if i < before.len() - 1 {
                        assert(before[i] < before[before.len() - 1]);
                    }
                }
            }
        }
    }
    result
}

/// The number of noise bands between a first border and the stop band: the
/// octaves between them times the bands per octave, rounded, from one to five,
/// and no more than there are low bands.
pub open spec fn noise_count(per_octave: u8, first: u8, k2: u8, low_bands: int) -> int {
    let rounded = (per_octave * (log2_q25(k2) - log2_q25(first)) + 0x100_0000) / 0x200_0000;
    let bounded = if rounded < 1 {
        1
    } else if rounded > 5 {
        5
    } else {
        rounded
    };
    if bounded < low_bands {
        bounded
    } else {
        low_bands
    }
}

/// The tables that a header derives from a master table: the bands from the
/// crossover band on, every second border of them, and the noise bands.
pub open spec fn derived_tables(header: LdSbrHeader, k2: u8, master: Seq<u8>) -> Result<FrequencyBorders, LdSbrError> {
    if header.crossover_band >= master.len() {
        Err(LdSbrError::InvalidCrossoverBand(header.crossover_band))
    } else {
        let high = master.skip(header.crossover_band as int);
        let low = halved_borders(high);
        let per_octave = match header.noise_bands {
            Some(bands) => bands,
            None => 2,
        };
        Ok(
            FrequencyBorders {
                master,
                high,
                low,
                noise: thinned_borders(low, noise_count(per_octave, high[0], k2, low.len() - 1)),
            },
        )
    }
}

/// The frequency tables of a header.
pub open spec fn frequency_tables(header: LdSbrHeader, sampling_frequency: u32) -> Result<FrequencyBorders, LdSbrError> {
    match start_of(sampling_frequency, header.start_frequency) {
        None => Err(LdSbrError::UnsupportedSamplingFrequency(sampling_frequency)),
        Some(k0) => match stop_of(sampling_frequency, header.stop_frequency, k0) {
            None => Err(LdSbrError::InvalidFrequencyRange),
            Some(k2) => match master_borders(
                k0,
                k2,
                match header.frequency_scale {
                    Some(scale) => scale,
                    None => 2,
                },
                match header.alter_scale {
                    Some(alter) => alter,
                    None => true,
                },
            ) {
                Err(error) => Err(error),
                Ok(master) => derived_tables(header, k2, master),
            },
        },
    }
}

/// Whether tables have bands that start and end together.
pub open spec fn tables_agree(tables: FrequencyBorders) -> bool {
    &&& 1 <= tables.high.len() <= tables.master.len() <= 256
    &&& 1 <= tables.low.len() <= tables.high.len()
    &&& 1 <= tables.noise.len() <= 6
    &&& tables.high.last() == tables.master.last()
    &&& tables.low[0] == tables.high[0]
    &&& tables.low.last() == tables.high.last()
    &&& tables.noise[0] == tables.low[0]
    &&& tables.noise.last() == tables.low.last()
    &&& tables.low.len() == (tables.high.len() - 1) / 2 + (tables.high.len() - 1) % 2 + 1
}

/// Whether all tables rise at every step.
pub open spec fn tables_rise(tables: FrequencyBorders) -> bool {
    &&& strictly_rising(tables.master)
    &&& strictly_rising(tables.high)
    &&& strictly_rising(tables.low)
    &&& strictly_rising(tables.noise)
}

/// Whether a master table covers a single subband: its first border is doubled.
pub open spec fn single_band(master: Seq<u8>) -> bool {
    master.len() == 3 && master[0] == master[1] && master[1] + 1 == master[2]
}

/// The borders of every second band.
fn halve_borders(high: &Vec<u8>) -> (low: Vec<u8>)
    requires
        high@.len() >= 1,
    ensures
        low@ == halved_borders(high@),
{
    let bands: usize = high.len() - 1;
    let ghost wanted = halved_borders(high@);
    let mut low: Vec<u8> = Vec::new();
    low.push(high[0]);
    let odd: usize = bands % 2;
    let count: usize = bands / 2 + odd;
    while low.len() <= count
        invariant
            1 <= low@.len() <= count + 1,
            high@.len() == bands + 1,
            bands < usize::MAX,
            odd == bands % 2,
            count == bands / 2 + odd,
            wanted == halved_borders(high@),
            wanted.len() == count + 1,
            forall|i: int| 0 <= i < low@.len() ==> #[trigger] low@[i] == wanted[i],
        decreases count + 1 - low@.len(),
    {
        let index: usize = 2 * low.len() - odd;
        low.push(high[index]);
    }
    assert(low@ =~= wanted);
    low
}

fn noise_band_count(per_octave: u8, first: u8, k2: u8, low_bands: usize) -> (bounded: usize)
    ensures
        bounded == noise_count(per_octave, first, k2, low_bands as int),
        bounded <= low_bands,
{
    let top: i64 = log2_of(k2);
    let bottom: i64 = log2_of(first);
    proof {
        lemma_log2_range(k2);
        lemma_log2_range(first);
        assert(-0x10_0000_0000 <= per_octave * (top - bottom) <= 0x10_0000_0000) by (nonlinear_arith)
            requires
                0 <= per_octave <= 255,
                0 <= top <= 0x1000_0000,
                0 <= bottom <= 0x1000_0000,
        ;
    }
    let scaled: i64 = per_octave as i64 * (top - bottom) + 0x100_0000;
    let count: usize = if scaled < 0x200_0000 {
        1
    } else if scaled >= 6 * 0x200_0000 {
        5
    } else {
        (scaled / 0x200_0000) as usize
    };
    if count < low_bands {
        count
    } else {
        low_bands
    }
}

/// Derives the tables from a master table.
fn derive_tables(header: &LdSbrHeader, k2: u8, master: Vec<u8>) -> (result: Result<LdSbrFrequencyTables, LdSbrError>)
    requires
        master@.len() <= 256,
    ensures
        match derived_tables(*header, k2, master@) {
            Ok(tables) => result matches Ok(list) && list@ == tables && tables_agree(tables) && (strictly_rising(master@)
                ==> tables_rise(tables)),
            Err(error) => result matches Err(found) && found == error,
        },
{
    let crossover: usize = header.crossover_band as usize;
    if crossover >= master.len() {
        return Err(LdSbrError::InvalidCrossoverBand(header.crossover_band));
    }
    let mut high: Vec<u8> = Vec::new();
    let mut index: usize = crossover;
    while index < master.len()
        invariant
            crossover <= index <= master@.len(),
            high@ == master@.subrange(crossover as int, index as int),
        decreases master@.len() - index,
    {
        high.push(master[index]);
        index = index + 1;
        assert(high@ =~= master@.subrange(crossover as int, index as int));
    }
    assert(high@ =~= master@.skip(crossover as int));
    let low: Vec<u8> = halve_borders(&high);
    let per_octave: u8 = match header.noise_bands {
        Some(bands) => bands,
        None => 2,
    };
    let first: u8 = high[0];
    let bounded: usize = noise_band_count(per_octave, first, k2, low.len() - 1);
    let noise: Vec<u8> = downsample_borders(&low, bounded);
    proof {
        if strictly_rising(master@) {
            assert forall|i: int, j: int| 0 <= i < j < high@.len() implies high@[i] < high@[j] by {
                assert(master@[crossover + i] < master@[crossover + j]);
            }
        }
    }
    Ok(LdSbrFrequencyTables { master, high, low, noise })
}

impl LdSbrFrequencyTables {
    /// Derives the tables from a header.
    pub fn from_header(header: &LdSbrHeader, sampling_frequency: u32) -> (result: Result<
        LdSbrFrequencyTables,
        LdSbrError,
    >)
        ensures
            match frequency_tables(*header, sampling_frequency) {
                Ok(tables) => result matches Ok(list) && list@ == tables && tables_agree(tables),
                Err(error) => result matches Err(found) && found == error,
            },
            result matches Ok(list) ==> tables_rise(list@) || (header.frequency_scale == Some(0u8) && header.alter_scale
                == Some(false) && single_band(list@.master)),
    {
        let k0: u8 = match start_band(sampling_frequency, header.start_frequency) {
            Some(band) => band,
            None => {
                return Err(LdSbrError::UnsupportedSamplingFrequency(sampling_frequency));
            },
        };
        let k2: u8 = match stop_band(sampling_frequency, header.stop_frequency, k0) {
            Some(band) => band,
            None => {
                return Err(LdSbrError::InvalidFrequencyRange);
            },
        };
        let scale: u8 = match header.frequency_scale {
            Some(scale) => scale,
            None => 2,
        };
        let alter: bool = match header.alter_scale {
            Some(alter) => alter,
            None => true,
        };
        proof {
            lemma_master_fits(k0, k2, scale, alter);
        }
        let master: Vec<u8> = match make_master(k0, k2, scale, alter) {
            Ok(master) => master,
            Err(error) => {
                return Err(error);
            },
        };
        derive_tables(header, k2, master)
    }

    /// The number of bands of the high-resolution table.
    pub fn high_band_count(&self) -> (count: usize)
        requires
            self.high@.len() >= 1,
        ensures
            count == self.high@.len() - 1,
    {
        self.high.len() - 1
    }

    /// The number of bands of the low-resolution table.
    pub fn low_band_count(&self) -> (count: usize)
        requires
            self.low@.len() >= 1,
        ensures
            count == self.low@.len() - 1,
    {
        self.low.len() - 1
    }

    /// The number of noise bands.
    pub fn noise_band_count(&self) -> (count: usize)
        requires
            self.noise@.len() >= 1,
        ensures
            count == self.noise@.len() - 1,
    {
        self.noise.len() - 1
    }
}

proof fn lemma_log2_range(value: u8)
    ensures
        0 <= log2_q25(value) <= 0x1000_0000,
{
    if value >= 1 {
        lemma_log2_monotone(value, value);
    } else {
        super::log2::lemma_log2_zero();
    }
}

// ---------------------------------------------------------------------------
// Thinned borders
// ---------------------------------------------------------------------------

/// The number of bands that the first `taken` of `wanted` groups hold, where `source`
/// bands are shared out evenly and the last groups get those that are left over.
pub open spec fn shared_out(taken: int, source: int, wanted: int) -> int {
    let spare = wanted - source % wanted;
    taken * (source / wanted) + if taken > spare {
        taken - spare
    } else {
        0
    }
}

proof fn lemma_share_step(taken: int, source: int, wanted: int)
    requires
        2 <= wanted <= source,
        0 <= taken <= wanted - 1,
    ensures
        shared_out(1, source, wanted) == source / wanted,
        shared_out(taken + 1, source, wanted) == source / wanted + shared_out(
            taken,
            source - source / wanted,
            wanted - 1,
        ),
        wanted - 1 <= source - source / wanted,
{
    let q = source / wanted;
    let r = source % wanted;
    vstd::arithmetic::div_mod::lemma_fundamental_div_mod(source, wanted);
    let less = source - q;
    assert(less == q * (wanted - 1) + r) by (nonlinear_arith)
        requires
            source == wanted * q + r,
            less == source - q,
    ;
    assert(q >= 1) by (nonlinear_arith)
        requires
            source == wanted * q + r,
            0 <= r < wanted,
            wanted <= source,
    ;
    assert(q * (wanted - 1) >= wanted - 1) by (nonlinear_arith)
        requires
            q >= 1,
            wanted >= 2,
    ;
    assert((taken + 1) * q == taken * q + q) by (nonlinear_arith);
    assert(1 * q == q);
    if r < wanted - 1 {
        vstd::arithmetic::div_mod::lemma_fundamental_div_mod_converse(less, wanted - 1, q, r);
    } else {
        assert(less == (q + 1) * (wanted - 1)) by (nonlinear_arith)
            requires
                less == q * (wanted - 1) + r,
                r == wanted - 1,
        ;
        vstd::arithmetic::div_mod::lemma_fundamental_div_mod_converse(less, wanted - 1, q + 1, 0);
        assert(taken * (q + 1) == taken * q + taken) by (nonlinear_arith);
    }
}

proof fn lemma_thin_out(borders: Seq<u8>, index: int, source: int, wanted: int, chosen: Seq<u8>)
    requires
        1 <= wanted <= source,
    ensures
        ({
            let all = thin_out(borders, index, source, wanted, chosen);
            &&& all.len() == chosen.len() + wanted
            &&& forall|i: int| 0 <= i < chosen.len() ==> #[trigger] all[i] == chosen[i]
            &&& forall|j: int|
                1 <= j <= wanted ==> all[chosen.len() + j - 1] == borders[index + #[trigger] shared_out(j, source, wanted)]
        }),
    decreases wanted,
{
    let q = source / wanted;
    let next = chosen.push(borders[index + q]);
    let all = thin_out(borders, index, source, wanted, chosen);
    assert(all == thin_out(borders, index + q, source - q, wanted - 1, next));
    if wanted == 1 {
        assert(source / 1 == source && source % 1 == 0);
        assert(all == next);
        assert(shared_out(1, source, 1) == source);
    } else {
        lemma_share_step(0, source, wanted);
        lemma_thin_out(borders, index + q, source - q, wanted - 1, next);
        assert forall|i: int| 0 <= i < chosen.len() implies #[trigger] all[i] == chosen[i] by {
            assert(all[i] == next[i]);
        }
        assert forall|j: int| 1 <= j <= wanted implies all[chosen.len() + j - 1] == borders[index
            + #[trigger] shared_out(j, source, wanted)] by {
            if j == 1 {
                assert(all[chosen.len() as int] == next[chosen.len() as int]);
            } else {
                lemma_share_step(j - 1, source, wanted);
                assert(shared_out(j, source, wanted) == q + shared_out(j - 1, source - q, wanted - 1));
                assert(all[next.len() + (j - 1) - 1] == borders[index + q + shared_out(j - 1, source - q, wanted - 1)]);
            }
        }
    }
}

/// Thinning out shares the bands out evenly: each of the bands that remain holds as
/// many as any other, or one more, and those that hold more come last.
pub proof fn lemma_thinned_evenly(borders: Seq<u8>, count: int, j: int)
    requires
        1 <= count <= borders.len() - 1,
        0 <= j <= count,
    ensures
        thinned_borders(borders, count).len() == count + 1,
        thinned_borders(borders, count)[j] == borders[shared_out(j, borders.len() - 1, count)],
{
    lemma_thin_out(borders, 0, borders.len() - 1, count, seq![borders[0]]);
    let source = borders.len() - 1;
    if j == 0 {
        vstd::arithmetic::div_mod::lemma_mod_bound(source, count);
        assert(0 * (source / count) == 0) by (nonlinear_arith);
        assert(shared_out(0, source, count) == 0);
    } else {
        assert(thinned_borders(borders, count)[1 + j - 1] == borders[0 + shared_out(j, source, count)]);
    }
}

// ---------------------------------------------------------------------------
// Start and stop bands rise
// ---------------------------------------------------------------------------

/// Start bands rise with their index.
pub proof fn lemma_start_bands_rise(sampling_frequency: u32, index: u8)
    requires
        supported_rate(sampling_frequency),
        index < 15,
    ensures
        start_of(sampling_frequency, index) is Some,
        start_of(sampling_frequency, (index + 1) as u8) is Some,
        start_of(sampling_frequency, index)->0 < start_of(sampling_frequency, (index + 1) as u8)->0,
{
}

/// The lowest stop band lies nearest to the frequency that it stands for: six, eight or ten
/// kilohertz, the more the higher the rate. It is band 64 at most.
pub proof fn lemma_lowest_stop_nearest(sampling_frequency: u32)
    requires
        sampling_frequency > 0,
    ensures
        ({
            let rate = sampling_frequency as int;
            let hertz: int = if rate < 32_000 {
                6_000
            } else if rate < 64_000 {
                8_000
            } else {
                10_000
            };
            let band = lowest_stop(sampling_frequency) as int;
            &&& 0 <= band <= 64
            &&& 2 * (band * rate) - 256 * hertz <= rate
            &&& band < 64 ==> 2 * (band * rate) - 256 * hertz > -rate - 2
        }),
{
    let rate = sampling_frequency as int;
    let hertz: int = if rate < 32_000 {
        6_000
    } else if rate < 64_000 {
        8_000
    } else {
        10_000
    };
    let size = hertz * 128 + rate / 2;
    let quotient = size / rate;
    vstd::arithmetic::div_mod::lemma_fundamental_div_mod(size, rate);
    vstd::arithmetic::div_mod::lemma_mod_bound(size, rate);
    assert(quotient >= 0) by (nonlinear_arith)
        requires
            quotient == size / rate,
            size >= 0,
            rate > 0,
    ;
    assert(rate * quotient == quotient * rate) by (nonlinear_arith);
    if quotient >= 64 {
        assert(64 * rate <= quotient * rate) by (nonlinear_arith)
            requires
                quotient >= 64,
                rate > 0,
        ;
    }
}

/// Stop bands rise with their index from the lowest one on, by one width each; the last two
/// are the double and the triple of the start band, but at most band 64.
pub proof fn lemma_stop_bands_rise(sampling_frequency: u32, index: u8, k0: u8)
    requires
        sampling_frequency > 0,
        index < 13,
    ensures
        stop_candidate(sampling_frequency, index, k0) is Some <==> stop_candidate(
            sampling_frequency,
            (index + 1) as u8,
            k0,
        ) is Some,
        stop_candidate(sampling_frequency, index, k0) is Some ==> stop_candidate(sampling_frequency, index, k0)->0
            < stop_candidate(sampling_frequency, (index + 1) as u8, k0)->0,
        stop_candidate(sampling_frequency, 0, k0) is Some ==> stop_candidate(sampling_frequency, 0, k0)->0 == lowest_stop(
            sampling_frequency,
        ),
        stop_candidate(sampling_frequency, 14, k0) == Some(
            if k0 <= 32 {
                2 * k0
            } else {
                64
            },
        ),
        stop_candidate(sampling_frequency, 15, k0) == Some(
            if k0 <= 21 {
                3 * k0
            } else {
                64
            },
        ),
{
    let lowest = lowest_stop(sampling_frequency);
    if lowest > 0 && band_widths(lowest, 64, 13) is Ok {
        let widths = band_widths(lowest, 64, 13)->Ok_0;
        let sorted = ascending(widths);
        lemma_ascending(widths);
        assert(sorted.len() == 13);
        assert(sorted.take(index + 1).drop_last() =~= sorted.take(index as int));
        assert(sorted.take(index + 1).last() == sorted[index as int]);
        assert(sorted[index as int] > 0);
        assert(sorted.take(0) =~= Seq::<u8>::empty());
    }
}

} // verus!
