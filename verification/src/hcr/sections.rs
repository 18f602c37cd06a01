//! Sections of spectral lines that share a codebook.

use vstd::prelude::*;

use crate::ics::{total_length, IcsInfo, WindowSequence};
use crate::section::{Section, SectionData};

use super::side_info::HcrError;

verus! {

/// A run of spectral lines with one codebook.
#[derive(Debug, Clone, Copy, PartialEq, Eq, Structural)]
pub struct HcrSection {
    pub codebook: u8,
    pub spectral_lines: usize,
}

/// Whether a codebook carries spectral codewords or can be a codebook of none.
pub open spec fn carried_codebook(codebook: u8) -> u8 {
    if codebook <= 11 || 16 <= codebook <= 31 {
        codebook
    } else {
        0
    }
}

/// Maps the codebooks without spectral codewords to zero.
pub fn hcr_codebook(codebook: u8) -> (result: u8)
    ensures
        result == carried_codebook(codebook),
{
    if codebook <= 11 || (16 <= codebook && codebook <= 31) {
        codebook
    } else {
        0
    }
}

/// Whether section data describes the bands and groups of a frame.
pub open spec fn layout_matches(max_sfb: int, groups: int, codebooks: Seq<Vec<u8>>, offsets: Seq<usize>) -> bool {
    &&& offsets.len() > max_sfb
    &&& codebooks.len() == groups
    &&& forall|g: int| 0 <= g < codebooks.len() ==> (#[trigger] codebooks[g])@.len() >= max_sfb
}

/// Whether a section of a long window lies within the transmitted bands.
pub open spec fn section_fits(section: Section, max_sfb: int) -> bool {
    section.end_sfb <= max_sfb && section.start_sfb < section.end_sfb
}

/// The spectral lines of a section of a long window.
pub open spec fn long_section(section: Section, offsets: Seq<usize>) -> HcrSection {
    HcrSection {
        codebook: carried_codebook(section.codebook),
        spectral_lines: (offsets[section.end_sfb as int] - offsets[section.start_sfb as int]) as usize,
    }
}

/// Appends four lines of a codebook: to the last run where it has the same
/// codebook, as a new run otherwise.
pub open spec fn append_unit(runs: Seq<HcrSection>, codebook: u8) -> Seq<HcrSection> {
    if runs.len() > 0 && runs.last().codebook == codebook {
        runs.update(
            runs.len() - 1,
            HcrSection { codebook, spectral_lines: (runs.last().spectral_lines + 4) as usize },
        )
    } else {
        runs.push(HcrSection { codebook, spectral_lines: 4 })
    }
}

/// The runs of a sequence of units of four lines, each given by its codebook.
pub open spec fn runs_of(units: Seq<u8>) -> Seq<HcrSection>
    decreases units.len(),
{
    if units.len() == 0 {
        Seq::empty()
    } else {
        append_unit(runs_of(units.drop_last()), units.last())
    }
}

/// A codebook repeated.
pub open spec fn repeated(codebook: u8, count: nat) -> Seq<u8> {
    Seq::new(count, |i: int| codebook)
}

/// One unit of a band in each window of the first `groups` groups.
pub open spec fn group_units(lengths: Seq<u8>, codebooks: Seq<Vec<u8>>, band: int, groups: int) -> Seq<u8>
    decreases groups,
{
    if groups <= 0 {
        Seq::empty()
    } else {
        group_units(lengths, codebooks, band, groups - 1) + repeated(
            carried_codebook(codebooks[groups - 1]@[band]),
            lengths[groups - 1] as nat,
        )
    }
}

/// The first `count` units of a band, each in all windows.
pub open spec fn band_units(lengths: Seq<u8>, codebooks: Seq<Vec<u8>>, band: int, count: int) -> Seq<u8>
    decreases count,
{
    if count <= 0 {
        Seq::empty()
    } else {
        band_units(lengths, codebooks, band, count - 1) + group_units(
            lengths,
            codebooks,
            band,
            lengths.len() as int,
        )
    }
}

/// The units of the first `bands` bands, in the order of transmission.
pub open spec fn short_units(lengths: Seq<u8>, codebooks: Seq<Vec<u8>>, offsets: Seq<usize>, bands: int) -> Seq<u8>
    decreases bands,
{
    if bands <= 0 {
        Seq::empty()
    } else {
        short_units(lengths, codebooks, offsets, bands - 1) + band_units(
            lengths,
            codebooks,
            bands - 1,
            (offsets[bands] - offsets[bands - 1]) / 4,
        )
    }
}

/// Whether the bands below `bands` are whole numbers of units wide.
pub open spec fn bands_aligned(offsets: Seq<usize>, bands: int) -> bool {
    forall|b: int| 0 <= b < bands ==> (#[trigger] offsets[b + 1] - offsets[b]) % 4 == 0
}

pub proof fn lemma_group_units_len(lengths: Seq<u8>, codebooks: Seq<Vec<u8>>, band: int, groups: int)
    requires
        0 <= groups <= lengths.len(),
    ensures
        group_units(lengths, codebooks, band, groups).len() == total_length(lengths.take(groups)),
    decreases groups,
{
    if groups > 0 {
        lemma_group_units_len(lengths, codebooks, band, groups - 1);
        assert(lengths.take(groups).drop_last() =~= lengths.take(groups - 1));
    }
}

pub proof fn lemma_band_units_len(lengths: Seq<u8>, codebooks: Seq<Vec<u8>>, band: int, count: int)
    requires
        0 <= count,
    ensures
        band_units(lengths, codebooks, band, count).len() == count * total_length(lengths),
    decreases count,
{
    if count > 0 {
        lemma_band_units_len(lengths, codebooks, band, count - 1);
        lemma_group_units_len(lengths, codebooks, band, lengths.len() as int);
        assert(lengths.take(lengths.len() as int) =~= lengths);
        assert(count * total_length(lengths) == (count - 1) * total_length(lengths) + total_length(lengths))
            by (nonlinear_arith);
    } else {
        assert(0 * total_length(lengths) == 0);
    }
}

proof fn lemma_total_length_nonnegative(lengths: Seq<u8>)
    ensures
        total_length(lengths) >= 0,
    decreases lengths.len(),
{
    if lengths.len() > 0 {
        lemma_total_length_nonnegative(lengths.drop_last());
    }
}

/// The lines of all runs are the lines of all units.
proof fn lemma_runs_bound(units: Seq<u8>)
    requires
        4 * units.len() <= usize::MAX,
    ensures
        forall|i: int| 0 <= i < runs_of(units).len() ==> (#[trigger] runs_of(units)[i]).spectral_lines <= 4 * units.len(),
    decreases units.len(),
{
    if units.len() > 0 {
        lemma_runs_bound(units.drop_last());
        let before = runs_of(units.drop_last());
        assert forall|i: int| 0 <= i < runs_of(units).len() implies (#[trigger] runs_of(units)[i]).spectral_lines <= 4
            * units.len() by {
            if i < before.len() {
                assert(before[i].spectral_lines <= 4 * (units.len() - 1));
            }
        }
    }
}

fn push_unit(runs: &mut Vec<HcrSection>, codebook: u8, Ghost(units): Ghost<Seq<u8>>)
    requires
        old(runs)@ == runs_of(units),
        4 * (units.len() + 1) <= usize::MAX,
    ensures
        final(runs)@ == runs_of(units.push(codebook)),
{
    proof {
        lemma_runs_bound(units);
        assert(units.push(codebook).drop_last() =~= units);
    }
    if runs.len() > 0 {
        let last: usize = runs.len() - 1;
        let run = runs[last];
        if run.codebook == codebook {
            runs.set(last, HcrSection { codebook, spectral_lines: run.spectral_lines + 4 });
            return ;
        }
    }
    runs.push(HcrSection { codebook, spectral_lines: 4 });
}

fn layout_is_valid(max_sfb: usize, groups: usize, codebooks: &Vec<Vec<u8>>, offsets: &[usize]) -> (valid: bool)
    ensures
        valid == layout_matches(max_sfb as int, groups as int, codebooks@, offsets@),
{
    if offsets.len() <= max_sfb || codebooks.len() != groups {
        return false;
    }
    let mut group: usize = 0;
    while group < codebooks.len()
        invariant
            group <= codebooks@.len(),
            forall|g: int| 0 <= g < group ==> (#[trigger] codebooks@[g])@.len() >= max_sfb,
        decreases codebooks@.len() - group,
    {
        if codebooks[group].len() < max_sfb {
            return false;
        }
        group = group + 1;
    }
    true
}

fn long_sections(sections: &Vec<Section>, max_sfb: usize, offsets: &[usize]) -> (result: Result<
    Vec<HcrSection>,
    HcrError,
>)
    requires
        offsets@.len() > max_sfb,
        forall|i: int|
            0 <= i < sections@.len() && section_fits(#[trigger] sections@[i], max_sfb as int)
                ==> offsets@[sections@[i].start_sfb as int] <= offsets@[sections@[i].end_sfb as int],
    ensures
        match result {
            Ok(list) => {
                &&& forall|i: int| 0 <= i < sections@.len() ==> section_fits(#[trigger] sections@[i], max_sfb as int)
                &&& list@ == Seq::new(sections@.len(), |i: int| long_section(sections@[i], offsets@))
            },
            Err(error) => {
                &&& error == HcrError::LayoutMismatch
                &&& exists|i: int| 0 <= i < sections@.len() && !section_fits(#[trigger] sections@[i], max_sfb as int)
            },
        },
{
    let mut result: Vec<HcrSection> = Vec::new();
    let mut index: usize = 0;
    while index < sections.len()
        invariant
            index <= sections@.len(),
            offsets@.len() > max_sfb,
            forall|i: int|
                0 <= i < sections@.len() && section_fits(#[trigger] sections@[i], max_sfb as int)
                    ==> offsets@[sections@[i].start_sfb as int] <= offsets@[sections@[i].end_sfb as int],
            forall|i: int| 0 <= i < index ==> section_fits(#[trigger] sections@[i], max_sfb as int),
            result@ == Seq::new(index as nat, |i: int| long_section(sections@[i], offsets@)),
        decreases sections@.len() - index,
    {
        let section = sections[index];
        let start: usize = section.start_sfb as usize;
        let end: usize = section.end_sfb as usize;
        if end > max_sfb || start >= end {
            assert(!section_fits(sections@[index as int], max_sfb as int));
            return Err(HcrError::LayoutMismatch);
        }
        assert(section_fits(sections@[index as int], max_sfb as int));
        result.push(
            HcrSection { codebook: hcr_codebook(section.codebook), spectral_lines: offsets[end] - offsets[start] },
        );
        index = index + 1;
        assert(result@ =~= Seq::new(index as nat, |i: int| long_section(sections@[i], offsets@)));
    }
    Ok(result)
}

/// What a frame of short windows gives: the runs of its units, or the first band
/// that is not a whole number of units wide.
pub open spec fn short_sections_hold(
    lengths: Seq<u8>,
    codebooks: Seq<Vec<u8>>,
    offsets: Seq<usize>,
    bands: int,
    result: Result<Seq<HcrSection>, HcrError>,
) -> bool {
    match result {
        Ok(list) => bands_aligned(offsets, bands) && list == runs_of(short_units(lengths, codebooks, offsets, bands)),
        Err(error) => exists|band: int|
            {
                &&& 0 <= band < bands
                &&& bands_aligned(offsets, band)
                &&& (#[trigger] offsets[band + 1] - offsets[band]) % 4 != 0
                &&& error == HcrError::ShortBandNotFourLineAligned {
                    band: band as usize,
                    width: (offsets[band + 1] - offsets[band]) as usize,
                }
            },
    }
}

fn push_band(
    runs: &mut Vec<HcrSection>,
    lengths: &Vec<u8>,
    codebooks: &Vec<Vec<u8>>,
    band: usize,
    count: usize,
    Ghost(units): Ghost<Seq<u8>>,
)
    requires
        old(runs)@ == runs_of(units),
        codebooks@.len() == lengths@.len(),
        forall|g: int| 0 <= g < codebooks@.len() ==> (#[trigger] codebooks@[g])@.len() > band,
        4 * (units.len() + count * total_length(lengths@)) <= usize::MAX,
    ensures
        final(runs)@ == runs_of(units + band_units(lengths@, codebooks@, band as int, count as int)),
{
    let mut unit: usize = 0;
    assert(units + band_units(lengths@, codebooks@, band as int, 0) =~= units);
    proof {
        lemma_total_length_nonnegative(lengths@);
    }
    while unit < count
        invariant
            unit <= count,
            codebooks@.len() == lengths@.len(),
            forall|g: int| 0 <= g < codebooks@.len() ==> (#[trigger] codebooks@[g])@.len() > band,
            4 * (units.len() + count * total_length(lengths@)) <= usize::MAX,
            total_length(lengths@) >= 0,
            runs@ == runs_of(units + band_units(lengths@, codebooks@, band as int, unit as int)),
        decreases count - unit,
    {
        let ghost before = units + band_units(lengths@, codebooks@, band as int, unit as int);
        proof {
            lemma_band_units_len(lengths@, codebooks@, band as int, unit as int);
            assert((unit + 1) * total_length(lengths@) <= count * total_length(lengths@)) by (nonlinear_arith)
                requires
                    unit + 1 <= count,
                    total_length(lengths@) >= 0,
            ;
            assert((unit + 1) * total_length(lengths@) == unit * total_length(lengths@) + total_length(lengths@))
                by (nonlinear_arith);
            assert(before + group_units(lengths@, codebooks@, band as int, 0) =~= before);
        }
        let mut group: usize = 0;
        while group < lengths.len()
            invariant
                group <= lengths@.len(),
                codebooks@.len() == lengths@.len(),
                forall|g: int| 0 <= g < codebooks@.len() ==> (#[trigger] codebooks@[g])@.len() > band,
                4 * (before.len() + total_length(lengths@)) <= usize::MAX,
                runs@ == runs_of(before + group_units(lengths@, codebooks@, band as int, group as int)),
            decreases lengths@.len() - group,
        {
            let codebook: u8 = hcr_codebook(codebooks[group][band]);
            let length: u8 = lengths[group];
            let ghost inner = before + group_units(lengths@, codebooks@, band as int, group as int);
            proof {
                lemma_group_units_len(lengths@, codebooks@, band as int, group as int);
                lemma_group_units_len(lengths@, codebooks@, band as int, group + 1);
                lemma_prefix_total(lengths@, group + 1);
                assert(lengths@.take(group + 1).drop_last() =~= lengths@.take(group as int));
                assert(inner + repeated(codebook, 0) =~= inner);
            }
            let mut window: u8 = 0;
            while window < length
                invariant
                    window <= length,
                    4 * (inner.len() + length) <= usize::MAX,
                    runs@ == runs_of(inner + repeated(codebook, window as nat)),
                decreases length - window,
            {
                push_unit(runs, codebook, Ghost(inner + repeated(codebook, window as nat)));
                assert((inner + repeated(codebook, window as nat)).push(codebook) =~= inner + repeated(
                    codebook,
                    (window + 1) as nat,
                ));
                window = window + 1;
            }
            assert(inner + repeated(codebook, length as nat) =~= before + group_units(
                lengths@,
                codebooks@,
                band as int,
                group + 1,
            ));
            group = group + 1;
        }
        assert(before + group_units(lengths@, codebooks@, band as int, lengths@.len() as int) =~= units + band_units(
            lengths@,
            codebooks@,
            band as int,
            unit + 1,
        ));
        unit = unit + 1;
    }
}

proof fn lemma_prefix_total(lengths: Seq<u8>, count: int)
    requires
        0 <= count <= lengths.len(),
    ensures
        total_length(lengths.take(count)) <= total_length(lengths),
    decreases lengths.len() - count,
{
    if count < lengths.len() {
        lemma_prefix_total(lengths, count + 1);
        assert(lengths.take(count + 1).drop_last() =~= lengths.take(count));
    } else {
        assert(lengths.take(count) =~= lengths);
    }
}

/// The lines of the first `bands` bands in all windows.
pub open spec fn short_line_total(lengths: Seq<u8>, offsets: Seq<usize>, bands: int) -> int {
    (offsets[bands] - offsets[0]) * total_length(lengths)
}

fn short_sections(
    lengths: &Vec<u8>,
    codebooks: &Vec<Vec<u8>>,
    max_sfb: usize,
    offsets: &[usize],
) -> (result: Result<Vec<HcrSection>, HcrError>)
    requires
        layout_matches(max_sfb as int, lengths@.len() as int, codebooks@, offsets@),
        forall|b: int| 0 <= b < max_sfb ==> offsets@[b] <= #[trigger] offsets@[b + 1],
        short_line_total(lengths@, offsets@, max_sfb as int) <= usize::MAX,
    ensures
        short_sections_hold(
            lengths@,
            codebooks@,
            offsets@,
            max_sfb as int,
            match result {
                Ok(list) => Ok(list@),
                Err(error) => Err(error),
            },
        ),
{
    let mut result: Vec<HcrSection> = Vec::new();
    let mut band: usize = 0;
    let ghost total = total_length(lengths@);
    proof {
        lemma_total_length_nonnegative(lengths@);
    }
    while band < max_sfb
        invariant
            band <= max_sfb,
            total == total_length(lengths@),
            total >= 0,
            layout_matches(max_sfb as int, lengths@.len() as int, codebooks@, offsets@),
            forall|b: int| 0 <= b < max_sfb ==> offsets@[b] <= #[trigger] offsets@[b + 1],
            (offsets@[max_sfb as int] - offsets@[0]) * total <= usize::MAX,
            bands_aligned(offsets@, band as int),
            4 * short_units(lengths@, codebooks@, offsets@, band as int).len() == (offsets@[band as int] - offsets@[0])
                * total,
            result@ == runs_of(short_units(lengths@, codebooks@, offsets@, band as int)),
        decreases max_sfb - band,
    {
        assert(offsets@[band as int] <= offsets@[band + 1]);
        let width: usize = offsets[band + 1] - offsets[band];
        if width % 4 != 0 {
            assert((offsets@[band + 1] - offsets@[band as int]) % 4 != 0);
            return Err(HcrError::ShortBandNotFourLineAligned { band, width });
        }
        proof {
            let count = (width / 4) as int;
            lemma_band_units_len(lengths@, codebooks@, band as int, count);
            lemma_monotone(offsets@, band + 1, max_sfb as int);
            let start = offsets@[band as int] - offsets@[0];
            let end = offsets@[max_sfb as int] - offsets@[0];
            assert(4 * count == width);
            assert(4 * (count * total) == width * total) by (nonlinear_arith)
                requires
                    4 * count == width,
            ;
            assert(start * total + width * total == (start + width) * total) by (nonlinear_arith);
            assert((start + width) * total <= end * total) by (nonlinear_arith)
                requires
                    start + width <= end,
                    total >= 0,
            ;
        }
        push_band(
            &mut result,
            lengths,
            codebooks,
            band,
            width / 4,
            Ghost(short_units(lengths@, codebooks@, offsets@, band as int)),
        );
        band = band + 1;
    }
    Ok(result)
}

proof fn lemma_monotone(offsets: Seq<usize>, from: int, to: int)
    requires
        0 <= from <= to < offsets.len(),
        forall|b: int| 0 <= b < to ==> offsets[b] <= #[trigger] offsets[b + 1],
    ensures
        offsets[from] <= offsets[to],
    decreases to - from,
{
    if from < to {
        lemma_monotone(offsets, from, to - 1);
        assert(offsets[to - 1] <= offsets[(to - 1) + 1]);
    }
}

/// Whether `result` holds the sections of a frame.
pub open spec fn frame_sections_hold(
    ics: IcsInfo,
    data: SectionData,
    offsets: Seq<usize>,
    result: Result<Seq<HcrSection>, HcrError>,
) -> bool {
    let max_sfb = ics.max_sfb as int;
    let lengths = ics.window_group_lengths@;
    if !layout_matches(max_sfb, lengths.len() as int, data.codebooks@, offsets) {
        result == Err::<Seq<HcrSection>, HcrError>(HcrError::LayoutMismatch)
    } else if ics.window_sequence == WindowSequence::EightShort {
        short_sections_hold(lengths, data.codebooks@, offsets, max_sfb, result)
    } else if forall|i: int| 0 <= i < data.sections@.len() ==> section_fits(#[trigger] data.sections@[i], max_sfb) {
        result == Ok::<Seq<HcrSection>, HcrError>(
            Seq::new(data.sections@.len(), |i: int| long_section(data.sections@[i], offsets)),
        )
    } else {
        result == Err::<Seq<HcrSection>, HcrError>(HcrError::LayoutMismatch)
    }
}

/// The sections of a frame in the order in which reordering sees their lines.
///
/// A long window keeps its sections. Short windows are interleaved in units of
/// four lines, band by band, and neighbouring units with one codebook join.
pub fn sections_from_ics(ics: &IcsInfo, section_data: &SectionData, band_offsets: &[usize]) -> (result: Result<
    Vec<HcrSection>,
    HcrError,
>)
    requires
        layout_matches(
            ics.max_sfb as int,
            ics.window_group_lengths@.len() as int,
            section_data.codebooks@,
            band_offsets@,
        ) ==> if ics.window_sequence == WindowSequence::EightShort {
            &&& forall|b: int| 0 <= b < ics.max_sfb ==> band_offsets@[b] <= #[trigger] band_offsets@[b + 1]
            &&& short_line_total(ics.window_group_lengths@, band_offsets@, ics.max_sfb as int) <= usize::MAX
        } else {
            forall|i: int|
                0 <= i < section_data.sections@.len() && section_fits(
                    #[trigger] section_data.sections@[i],
                    ics.max_sfb as int,
                ) ==> band_offsets@[section_data.sections@[i].start_sfb as int]
                    <= band_offsets@[section_data.sections@[i].end_sfb as int]
        },
    ensures
        frame_sections_hold(
            *ics,
            *section_data,
            band_offsets@,
            match result {
                Ok(list) => Ok(list@),
                Err(error) => Err(error),
            },
        ),
{
    let max_sfb: usize = ics.max_sfb as usize;
    if !layout_is_valid(max_sfb, ics.window_group_lengths.len(), &section_data.codebooks, band_offsets) {
        return Err(HcrError::LayoutMismatch);
    }
    if ics.window_sequence.is_long() {
        long_sections(&section_data.sections, max_sfb, band_offsets)
    } else {
        short_sections(&ics.window_group_lengths, &section_data.codebooks, max_sfb, band_offsets)
    }
}

} // verus!
