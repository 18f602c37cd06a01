//! From codewords back to spectra.

use vstd::prelude::*;

use crate::huffman::{coefficient_magnitude, magnitude};
use crate::ics::{total_length, IcsInfo, WindowSequence};
use crate::spectral::SpectralData;

use super::decode::{codeword_views, Codeword, HcrDecodedCodeword};
use super::encode::{find_codeword, find_word};
use super::grid::{codebook_dimension, codeword_lines};
use super::sections::HcrSection;
use super::side_info::HcrError;

verus! {

/// The largest magnitude that a codebook stands for.
pub open spec fn magnitude_limit(codebook: u8) -> i32 {
    if 1 <= codebook <= 2 {
        1
    } else if 3 <= codebook <= 4 {
        2
    } else if 5 <= codebook <= 6 {
        4
    } else if 7 <= codebook <= 8 {
        7
    } else if 9 <= codebook <= 10 {
        12
    } else if codebook == 11 {
        8191
    } else if codebook == 16 {
        15
    } else if codebook == 17 {
        31
    } else if codebook == 18 {
        47
    } else if codebook == 19 {
        63
    } else if codebook == 20 {
        95
    } else if codebook == 21 {
        127
    } else if codebook == 22 {
        159
    } else if codebook == 23 {
        191
    } else if codebook == 24 {
        223
    } else if codebook == 25 {
        255
    } else if codebook == 26 {
        319
    } else if codebook == 27 {
        383
    } else if codebook == 28 {
        511
    } else if codebook == 29 {
        767
    } else if codebook == 30 {
        1023
    } else if codebook == 31 {
        2047
    } else {
        0
    }
}

/// The largest magnitude that a codebook stands for.
pub fn largest_absolute_value(codebook: u8) -> (limit: i32)
    ensures
        limit == magnitude_limit(codebook),
        limit >= 0,
{
    match codebook {
        1 | 2 => 1,
        3 | 4 => 2,
        5 | 6 => 4,
        7 | 8 => 7,
        9 | 10 => 12,
        11 => 8191,
        16 => 15,
        17 => 31,
        18 => 47,
        19 => 63,
        20 => 95,
        21 => 127,
        22 => 159,
        23 => 191,
        24 => 223,
        25 => 255,
        26 => 319,
        27 => 383,
        28 => 511,
        29 => 767,
        30 => 1023,
        31 => 2047,
        _ => 0,
    }
}

/// The first coefficient from index `i` on whose magnitude exceeds a limit.
pub open spec fn first_excess(coefficients: Seq<i32>, limit: i32, i: int) -> Option<i32>
    decreases coefficients.len() - i,
{
    if i < 0 || i >= coefficients.len() {
        None
    } else if magnitude(coefficients[i]) > limit {
        Some(coefficients[i])
    } else {
        first_excess(coefficients, limit, i + 1)
    }
}

/// A sequence with a part of it replaced.
pub open spec fn replaced(lines: Seq<i32>, at: int, part: Seq<i32>) -> Seq<i32> {
    Seq::new(
        lines.len(),
        |i: int|
            if at <= i < at + part.len() {
                part[i - at]
            } else {
                lines[i]
            },
    )
}

/// Placing the codewords of one section from index `word` on.
pub open spec fn place_words(
    section: HcrSection,
    index: usize,
    given: Seq<Codeword>,
    start: int,
    word: int,
    lines: Seq<i32>,
) -> Result<Seq<i32>, HcrError>
    decreases section.spectral_lines / codeword_lines(section.codebook) - word,
{
    let dimension = codeword_lines(section.codebook);
    if word < 0 || word >= section.spectral_lines / dimension {
        Ok(lines)
    } else {
        match find_codeword(given, index, word as usize, 0) {
            None => Err(HcrError::MissingCodeword { section: index, codeword: word as usize }),
            Some(found) => if found.coefficients.len() != dimension {
                Err(
                    HcrError::CoefficientDimensionMismatch {
                        section: index,
                        codeword: word as usize,
                        expected: dimension,
                        actual: found.coefficients.len() as usize,
                    },
                )
            } else {
                match first_excess(found.coefficients, magnitude_limit(section.codebook), 0) {
                    Some(value) => Err(
                        HcrError::LargestAbsoluteValueExceeded {
                            codebook: section.codebook,
                            value,
                            maximum: magnitude_limit(section.codebook),
                        },
                    ),
                    None => place_words(
                        section,
                        index,
                        given,
                        start,
                        word + 1,
                        replaced(lines, start + word * dimension, found.coefficients),
                    ),
                }
            },
        }
    }
}

/// Placing the sections from `index` on behind one another.
pub open spec fn place_sections(
    sections: Seq<HcrSection>,
    given: Seq<Codeword>,
    index: int,
    start: int,
    lines: Seq<i32>,
) -> Result<Seq<i32>, HcrError>
    decreases sections.len() - index,
{
    if index < 0 || index >= sections.len() {
        Ok(lines)
    } else {
        let section = sections[index];
        if start + section.spectral_lines > lines.len() {
            Err(HcrError::LayoutMismatch)
        } else if section.codebook == 0 {
            place_sections(sections, given, index + 1, start + section.spectral_lines, lines)
        } else {
            match place_words(section, index as usize, given, start, 0, lines) {
                Err(error) => Err(error),
                Ok(next) => place_sections(sections, given, index + 1, start + section.spectral_lines, next),
            }
        }
    }
}

/// The lines of one short window: units of four out of every thirty-two.
pub open spec fn short_window(lines: Seq<i32>, window: int) -> Seq<i32> {
    Seq::new(128, |i: int| lines[window * 4 + (i / 4) * 32 + i % 4])
}

/// The spectra of a frame, from the lines of its sections.
pub open spec fn spectra(sequence: WindowSequence, windows: int, granule: int, lines: Seq<i32>) -> Result<
    Seq<Seq<i32>>,
    HcrError,
> {
    if sequence != WindowSequence::EightShort {
        Ok(seq![lines])
    } else if windows != 8 || granule != 128 || lines.len() != 1024 {
        Err(HcrError::LayoutMismatch)
    } else {
        Ok(Seq::new(8, |window: int| short_window(lines, window)))
    }
}

/// What mapping codewords to spectra gives.
pub open spec fn mapped_codewords(ics: IcsInfo, sections: Seq<HcrSection>, given: Seq<Codeword>, granule: usize) -> Result<
    Seq<Seq<i32>>,
    HcrError,
> {
    let windows = total_length(ics.window_group_lengths@);
    if windows * granule > usize::MAX {
        Err(HcrError::LayoutMismatch)
    } else {
        match place_sections(sections, given, 0, 0, Seq::new((windows * granule) as nat, |i: int| 0i32)) {
            Err(error) => Err(error),
            Ok(lines) => spectra(ics.window_sequence, windows, granule as int, lines),
        }
    }
}

/// The windows of a spectrum.
pub open spec fn window_views(data: SpectralData) -> Seq<Seq<i32>> {
    data.windows@.map_values(|window: Vec<i32>| window@)
}

/// Finds the first coefficient whose magnitude exceeds a limit.
fn find_excess(coefficients: &Vec<i32>, limit: i32) -> (result: Option<i32>)
    requires
        limit >= 0,
    ensures
        result == first_excess(coefficients@, limit, 0),
{
    let mut index: usize = 0;
    while index < coefficients.len()
        invariant
            index <= coefficients@.len(),
            limit >= 0,
            first_excess(coefficients@, limit, index as int) == first_excess(coefficients@, limit, 0),
        decreases coefficients@.len() - index,
    {
        let value: i32 = coefficients[index];
        if coefficient_magnitude(value) > limit as u32 {
            return Some(value);
        }
        index = index + 1;
    }
    None
}

/// Places the codewords of one section.
fn place_section(
    section: HcrSection,
    section_index: usize,
    codewords: &[HcrDecodedCodeword],
    start: usize,
    lines: &mut Vec<i32>,
) -> (result: Result<(), HcrError>)
    requires
        start + section.spectral_lines <= old(lines)@.len(),
    ensures
        match place_words(section, section_index, codeword_views(codewords@), start as int, 0, old(lines)@) {
            Ok(next) => result is Ok && final(lines)@ == next && next.len() == old(lines)@.len(),
            Err(error) => result == Err::<(), HcrError>(error),
        },
{
    let ghost given = codeword_views(codewords@);
    let dimension: usize = codebook_dimension(section.codebook);
    let expected: usize = section.spectral_lines / dimension;
    let maximum: i32 = largest_absolute_value(section.codebook);
    let total: usize = lines.len();
    let mut word: usize = 0;
    while word < expected
        invariant
            word <= expected,
            given == codeword_views(codewords@),
            dimension == codeword_lines(section.codebook),
            1 <= dimension <= 4,
            expected == section.spectral_lines / dimension,
            maximum == magnitude_limit(section.codebook),
            maximum >= 0,
            start + section.spectral_lines <= total,
            lines@.len() == total,
            total == old(lines)@.len(),
            place_words(section, section_index, given, start as int, word as int, lines@) == place_words(
                section,
                section_index,
                given,
                start as int,
                0,
                old(lines)@,
            ),
        decreases expected - word,
    {
        let position: usize = match find_word(codewords, section_index, word) {
            Some(position) => position,
            None => {
                return Err(HcrError::MissingCodeword { section: section_index, codeword: word });
            },
        };
        let coefficients: &Vec<i32> = &codewords[position].coefficients;
        if coefficients.len() != dimension {
            return Err(
                HcrError::CoefficientDimensionMismatch {
                    section: section_index,
                    codeword: word,
                    expected: dimension,
                    actual: coefficients.len(),
                },
            );
        }
        match find_excess(coefficients, maximum) {
            Some(value) => {
                return Err(HcrError::LargestAbsoluteValueExceeded { codebook: section.codebook, value, maximum });
            },
            None => {},
        }
        assert(word * dimension + dimension <= section.spectral_lines) by (nonlinear_arith)
            requires
                word + 1 <= expected,
                expected == section.spectral_lines / dimension,
                1 <= dimension,
        ;
        let at: usize = start + word * dimension;
        let ghost before = lines@;
        let mut copied: usize = 0;
        while copied < dimension
            invariant
                copied <= dimension,
                coefficients@.len() == dimension,
                before.len() == total,
                lines@.len() == total,
                at + dimension <= total,
                lines@ =~= replaced(before, at as int, coefficients@.take(copied as int)),
            decreases dimension - copied,
        {
            let value: i32 = coefficients[copied];
            lines.set(at + copied, value);
            copied = copied + 1;
        }
        assert(coefficients@.take(dimension as int) =~= coefficients@);
        word = word + 1;
    }
    Ok(())
}

/// Copies one short window out of the interleaved lines.
fn copy_short_window(lines: &Vec<i32>, window: usize) -> (spectrum: Vec<i32>)
    requires
        lines@.len() == 1024,
        window < 8,
    ensures
        spectrum@ == short_window(lines@, window as int),
{
    let mut spectrum: Vec<i32> = Vec::new();
    let mut index: usize = 0;
    while index < 128
        invariant
            index <= 128,
            lines@.len() == 1024,
            window < 8,
            spectrum@ =~= short_window(lines@, window as int).take(index as int),
        decreases 128 - index,
    {
        spectrum.push(lines[window * 4 + (index / 4) * 32 + index % 4]);
        index = index + 1;
    }
    spectrum
}

/// Puts the coefficients of the codewords where they belong in the spectra of a
/// frame. Sections of codebook zero are lines of zero.
pub fn codewords_to_spectral_data(
    ics: &IcsInfo,
    sections: &[HcrSection],
    codewords: &[HcrDecodedCodeword],
    granule_length: usize,
) -> (result: Result<SpectralData, HcrError>)
    requires
        total_length(ics.window_group_lengths@) <= usize::MAX,
        forall|i: int| 0 <= i < sections@.len() ==> (#[trigger] sections@[i]).codebook < 32,
    ensures
        match mapped_codewords(*ics, sections@, codeword_views(codewords@), granule_length) {
            Ok(windows) => result matches Ok(data) && window_views(data) == windows,
            Err(error) => result matches Err(found) && found == error,
        },
{
    let mut windows: usize = 0;
    let mut index: usize = 0;
    let ghost lengths = ics.window_group_lengths@;
    assert(lengths.take(0) =~= Seq::<u8>::empty());
    while index < ics.window_group_lengths.len()
        invariant
            index <= lengths.len(),
            lengths == ics.window_group_lengths@,
            total_length(lengths) <= usize::MAX,
            windows == total_length(lengths.take(index as int)),
        decreases lengths.len() - index,
    {
        proof {
            lemma_prefix_length(lengths, index + 1);
            assert(lengths.take(index + 1).drop_last() =~= lengths.take(index as int));
        }
        windows = windows + ics.window_group_lengths[index] as usize;
        index = index + 1;
    }
    assert(lengths.take(index as int) =~= lengths);
    let total_lines: usize = match windows.checked_mul(granule_length) {
        Some(total) => total,
        None => {
            return Err(HcrError::LayoutMismatch);
        },
    };
    let mut reordered: Vec<i32> = vec![0i32; total_lines];
    assert(reordered@ =~= Seq::new(total_lines as nat, |i: int| 0i32));
    let ghost given = codeword_views(codewords@);
    let ghost empty = reordered@;
    let mut destination: usize = 0;
    let mut index: usize = 0;
    while index < sections.len()
        invariant
            index <= sections@.len(),
            given == codeword_views(codewords@),
            reordered@.len() == total_lines,
            destination <= total_lines,
            windows == total_length(ics.window_group_lengths@),
            total_lines == windows * granule_length,
            empty == Seq::new(total_lines as nat, |i: int| 0i32),
            place_sections(sections@, given, index as int, destination as int, reordered@) == place_sections(
                sections@,
                given,
                0,
                0,
                empty,
            ),
        decreases sections@.len() - index,
    {
        let section = sections[index];
        if section.spectral_lines > total_lines - destination {
            return Err(HcrError::LayoutMismatch);
        }
        if section.codebook != 0 {
            match place_section(section, index, codewords, destination, &mut reordered) {
                Ok(()) => {},
                Err(error) => {
                    return Err(error);
                },
            }
        }
        destination = destination + section.spectral_lines;
        index = index + 1;
    }
    if ics.window_sequence.is_long() {
        let ghost lines = reordered@;
        let mut output: Vec<Vec<i32>> = Vec::new();
        output.push(reordered);
        let data = SpectralData { windows: output };
        assert(window_views(data) =~= seq![lines]);
        return Ok(data);
    }
    if windows != 8 || granule_length != 128 || reordered.len() != 1024 {
        return Err(HcrError::LayoutMismatch);
    }
    let mut output: Vec<Vec<i32>> = Vec::new();
    let mut window: usize = 0;
    while window < 8
        invariant
            window <= 8,
            reordered@.len() == 1024,
            output@.len() == window,
            forall|w: int| 0 <= w < window ==> (#[trigger] output@[w])@ == short_window(reordered@, w),
        decreases 8 - window,
    {
        output.push(copy_short_window(&reordered, window));
        window = window + 1;
    }
    let data = SpectralData { windows: output };
    assert(window_views(data) =~= Seq::new(8, |w: int| short_window(reordered@, w)));
    Ok(data)
}

proof fn lemma_prefix_length(lengths: Seq<u8>, count: int)
    requires
        0 <= count <= lengths.len(),
    ensures
        total_length(lengths.take(count)) <= total_length(lengths),
    decreases lengths.len() - count,
{
    if count < lengths.len() {
        lemma_prefix_length(lengths, count + 1);
        assert(lengths.take(count + 1).drop_last() =~= lengths.take(count));
    } else {
        assert(lengths.take(count) =~= lengths);
    }
}

} // verus!
