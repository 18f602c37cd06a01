//! Encoding with one segment of fixed width for each codeword.

use vstd::prelude::*;

use crate::bits::{bits_of, padding, zero_bits, BitCursor, BitWriter};
use crate::codebook_laws::{lemma_codebook, lemma_escape_pair};
use crate::huffman::{
    codeword, escape_bits, is_spectral, lemma_escape_length, lemma_short_codeword, magnitude, packed_word, sign_bits,
    spectral_table, stored_coefficient, tuple_bits, tuple_dimension, tuple_word, write_spectral_tuple, HuffmanError,
};
use crate::spectral::{lemma_tuple_decodes, SpectralError};

use super::decode::{
    by_section, codeword_views, decode_first, decode_priority, priority_codewords, reordered_codewords, whole_segments,
    Codeword, HcrDecodedCodeword, PriorityCodeword,
};
use super::grid::{
    codeword_limit, codewords_by_priority, first_section_error, lemma_priority_codebooks, lemma_segmentation,
    max_codeword_bits, segment_of, segment_width, segmentation, sorted_codeword_descriptors, word_has_codebook,
    CodewordDescriptor, HcrSegment,
};
use super::sections::HcrSection;
use super::segment::{decode_at_edge, directional_bits, HcrReadDirection, HcrSegmentState};
use super::side_info::{HcrError, HcrSideInfo, CPE_MAX_REORDERED_SPECTRAL_BITS};

verus! {

/// The summed widths of the first `count` codewords.
pub open spec fn total_width(words: Seq<CodewordDescriptor>, count: int) -> int
    decreases count,
{
    if count <= 0 {
        0
    } else {
        total_width(words, count - 1) + codeword_limit(words[count - 1].codebook)
    }
}

/// The widest of the first `count` codewords.
pub open spec fn widest(words: Seq<CodewordDescriptor>, count: int) -> usize
    decreases count,
{
    if count <= 0 {
        0
    } else if codeword_limit(words[count - 1].codebook) > widest(words, count - 1) {
        codeword_limit(words[count - 1].codebook)
    } else {
        widest(words, count - 1)
    }
}

/// The first codeword from index `i` on that has the given place.
pub open spec fn find_codeword(given: Seq<Codeword>, section: usize, index: usize, i: int) -> Option<Codeword>
    decreases given.len() - i,
{
    if i < 0 || i >= given.len() {
        None
    } else if given[i].section_index == section && given[i].codeword_index == index {
        Some(given[i])
    } else {
        find_codeword(given, section, index, i + 1)
    }
}

/// Why a tuple has no bits in a codebook.
pub open spec fn tuple_error(codebook: u8, coefficients: Seq<i32>) -> HuffmanError {
    if !is_spectral(codebook) {
        HuffmanError::InvalidCodebook(codebook)
    } else if coefficients.len() != tuple_dimension(codebook) {
        HuffmanError::InvalidTupleDimension {
            expected: tuple_dimension(codebook) as u8,
            actual: coefficients.len() as usize,
        }
    } else {
        HuffmanError::UnrepresentableTuple(codebook)
    }
}

/// The segment of a codeword: its bits, filled up with zeros.
pub open spec fn filled_segment(code: Seq<bool>, width: usize) -> Seq<bool> {
    code + zero_bits((width - code.len()) as nat)
}

/// Encoding the codewords from index `i` on behind what was encoded before.
pub open spec fn encode_words(
    words: Seq<CodewordDescriptor>,
    given: Seq<Codeword>,
    i: int,
    encoded: Seq<bool>,
) -> Result<Seq<bool>, HcrError>
    decreases words.len() - i,
{
    if i < 0 || i >= words.len() {
        Ok(encoded)
    } else {
        match find_codeword(given, words[i].section_index, words[i].codeword_index, 0) {
            None => Err(
                HcrError::MissingCodeword { section: words[i].section_index, codeword: words[i].codeword_index },
            ),
            Some(word) => match tuple_bits(words[i].codebook, word.coefficients) {
                None => Err(
                    HcrError::Spectral(
                        SpectralError::Huffman(tuple_error(words[i].codebook, word.coefficients)),
                    ),
                ),
                Some(code) => encode_words(
                    words,
                    given,
                    i + 1,
                    encoded + filled_segment(code, codeword_limit(words[i].codebook)),
                ),
            },
        }
    }
}

/// What encoding codewords gives: the lengths and the payload bits.
pub open spec fn encoded_codewords(sections: Seq<HcrSection>, given: Seq<Codeword>) -> Result<
    (HcrSideInfo, Seq<bool>),
    HcrError,
> {
    match first_section_error(sections, 0, false) {
        Some(error) => Err(error),
        None => {
            let words = codewords_by_priority(sections);
            let total = total_width(words, words.len() as int);
            if total > CPE_MAX_REORDERED_SPECTRAL_BITS {
                Err(
                    HcrError::ReorderedSpectralLengthOutOfRange {
                        length: total as usize,
                        maximum: CPE_MAX_REORDERED_SPECTRAL_BITS,
                    },
                )
            } else {
                match encode_words(words, given, 0, Seq::empty()) {
                    Err(error) => Err(error),
                    Ok(bits) => Ok(
                        (
                            HcrSideInfo {
                                reordered_spectral_bits: total as usize,
                                longest_codeword_bits: widest(words, words.len() as int),
                                bits_read: 20,
                            },
                            bits,
                        ),
                    ),
                }
            }
        },
    }
}

/// No tuple takes more bits than its codebook's limit.
pub proof fn lemma_tuple_length(codebook: u8, coefficients: Seq<i32>)
    ensures
        tuple_bits(codebook, coefficients) matches Some(bits) ==> bits.len() <= codeword_limit(codebook),
{
    if tuple_bits(codebook, coefficients) is Some {
        let word = tuple_word(codebook, coefficients)->0;
        lemma_codebook(codebook, word);
        lemma_short_codeword(spectral_table(codebook), word);
        lemma_sign_length(coefficients);
        if codebook == 11 {
            let first = coefficients[0];
            let second = coefficients[1];
            assert(stored_coefficient(11, first) is Some);
            assert(stored_coefficient(11, second) is Some);
            let stored = coefficients.map_values(|coefficient: i32| stored_coefficient(11, coefficient)->0);
            assert(stored[0] == stored_coefficient(11, first)->0);
            assert(stored[1] == stored_coefficient(11, second)->0);
            reveal_with_fuel(escape_bits, 3);
            assert(coefficients.drop_last().drop_last() =~= Seq::<i32>::empty());
            assert(coefficients.drop_last().last() == first);
            if magnitude(first) >= 16 {
                lemma_escape_length(magnitude(first));
            }
            if magnitude(second) >= 16 {
                lemma_escape_length(magnitude(second));
            }
            if magnitude(first) >= 16 && magnitude(second) >= 16 {
                let base = crate::huffman::coefficient_base(11) as nat;
                assert(base * stored[1] == 512) by (nonlinear_arith)
                    requires
                        base == 32,
                        stored[1] == 16,
                ;
                assert(packed_word(11, stored) == 528);
                assert(word == 528);
                lemma_escape_pair();
            }
        }
    }
}

proof fn lemma_sign_length(coefficients: Seq<i32>)
    ensures
        sign_bits(coefficients).len() <= coefficients.len(),
    decreases coefficients.len(),
{
    if coefficients.len() > 0 {
        lemma_sign_length(coefficients.drop_last());
    }
}

/// Fails where a codeword takes more bits than its segment has.
pub fn validate_segment_width(section: usize, codeword: usize, used: usize, width: usize) -> (result: Result<
    (),
    HcrError,
>)
    ensures
        used <= width ==> result is Ok,
        used > width ==> result == Err::<(), HcrError>(
            HcrError::SegmentOverrun { section, codeword, consumed_bits: used, segment_bits: width },
        ),
{
    if used > width {
        return Err(HcrError::SegmentOverrun { section, codeword, consumed_bits: used, segment_bits: width });
    }
    Ok(())
}

/// Finds the first codeword at a place.
pub fn find_word(codewords: &[HcrDecodedCodeword], section: usize, index: usize) -> (result: Option<usize>)
    ensures
        match find_codeword(codeword_views(codewords@), section, index, 0) {
            Some(word) => result matches Some(position) && position < codewords@.len() && codewords@[position as int]@
                == word,
            None => result is None,
        },
{
    let ghost given = codeword_views(codewords@);
    let mut position: usize = 0;
    while position < codewords.len()
        invariant
            position <= codewords@.len(),
            given == codeword_views(codewords@),
            find_codeword(given, section, index, position as int) == find_codeword(given, section, index, 0),
        decreases codewords@.len() - position,
    {
        assert(given[position as int] == codewords@[position as int]@);
        if codewords[position].section_index == section && codewords[position].codeword_index == index {
            return Some(position);
        }
        position = position + 1;
    }
    None
}

/// Encodes codewords with one segment of fixed width each. This takes more bits
/// than gathering several codewords in a segment, and leaves every codeword at
/// the left edge of a segment of its own.
pub fn encode_reordered_codewords(sections: &[HcrSection], codewords: &[HcrDecodedCodeword]) -> (result: Result<
    (HcrSideInfo, Vec<u8>),
    HcrError,
>)
    requires
        total_width(codewords_by_priority(sections@), codewords_by_priority(sections@).len() as int) <= usize::MAX,
    ensures
        match encoded_codewords(sections@, codeword_views(codewords@)) {
            Ok((side_info, bits)) => result matches Ok((lengths, payload)) && lengths == side_info && bits_of(payload@)
                == bits + padding(bits.len()) && bits.len() == side_info.reordered_spectral_bits,
            Err(error) => result matches Err(found) && found == error,
        },
{
    let words: Vec<CodewordDescriptor> = match sorted_codeword_descriptors(sections) {
        Ok(words) => words,
        Err(error) => {
            return Err(error);
        },
    };
    let mut longest: usize = 0;
    let mut total: usize = 0;
    let mut index: usize = 0;
    while index < words.len()
        invariant
            index <= words@.len(),
            total_width(words@, words@.len() as int) <= usize::MAX,
            total == total_width(words@, index as int),
            longest == widest(words@, index as int),
        decreases words@.len() - index,
    {
        let width: usize = max_codeword_bits(words[index].codebook);
        proof {
            lemma_total_width_grows(words@, index + 1, words@.len() as int);
        }
        if width > longest {
            longest = width;
        }
        total = total + width;
        index = index + 1;
    }
    if total > CPE_MAX_REORDERED_SPECTRAL_BITS {
        return Err(
            HcrError::ReorderedSpectralLengthOutOfRange { length: total, maximum: CPE_MAX_REORDERED_SPECTRAL_BITS },
        );
    }
    let ghost given = codeword_views(codewords@);
    let mut writer = BitWriter::new();
    let mut index: usize = 0;
    while index < words.len()
        invariant
            index <= words@.len(),
            words@ == codewords_by_priority(sections@),
            given == codeword_views(codewords@),
            total == total_width(words@, words@.len() as int),
            total <= CPE_MAX_REORDERED_SPECTRAL_BITS,
            first_section_error(sections@, 0, false) is None,
            writer@.len() == total_width(words@, index as int),
            encode_words(words@, given, index as int, writer@) == encode_words(words@, given, 0, Seq::empty()),
        decreases words@.len() - index,
    {
        let descriptor = words[index];
        proof {
            lemma_total_width_grows(words@, index + 1, words@.len() as int);
            lemma_total_width_grows(words@, index as int, words@.len() as int);
        }
        let position: usize = match find_word(codewords, descriptor.section_index, descriptor.codeword_index) {
            Some(position) => position,
            None => {
                return Err(
                    HcrError::MissingCodeword { section: descriptor.section_index, codeword: descriptor.codeword_index },
                );
            },
        };
        let ghost before = writer@;
        let coefficients: &[i32] = codewords[position].coefficients.as_slice();
        proof {
            lemma_tuple_length(descriptor.codebook, coefficients@);
        }
        let written: usize = match write_spectral_tuple(&mut writer, descriptor.codebook, coefficients) {
            Ok(written) => written,
            Err(error) => {
                return Err(HcrError::Spectral(SpectralError::Huffman(error)));
            },
        };
        let width: usize = max_codeword_bits(descriptor.codebook);
        match validate_segment_width(descriptor.section_index, descriptor.codeword_index, written, width) {
            Ok(()) => {},
            Err(error) => {
                return Err(error);
            },
        }
        writer.write(0, width - written);
        proof {
            let code = tuple_bits(descriptor.codebook, coefficients@)->0;
            lemma_zero_field((width - written) as nat);
            assert(writer@ =~= before + filled_segment(code, width));
        }
        index = index + 1;
    }
    Ok(
        (
            HcrSideInfo { reordered_spectral_bits: total, longest_codeword_bits: longest, bits_read: 20 },
            writer.finish(),
        ),
    )
}

/// A field that holds zero is a run of zero bits.
proof fn lemma_zero_field(width: nat)
    ensures
        crate::bits::value_bits(0, width) == zero_bits(width),
    decreases width,
{
    if width > 0 {
        lemma_zero_field((width - 1) as nat);
    }
    assert(crate::bits::value_bits(0, width) =~= zero_bits(width));
}

proof fn lemma_total_width_grows(words: Seq<CodewordDescriptor>, from: int, to: int)
    requires
        from <= to,
    ensures
        total_width(words, from) <= total_width(words, to),
        0 <= total_width(words, from),
    decreases to - from, (if from > 0 { from } else { 0 }),
{
    if from < to {
        lemma_total_width_grows(words, from, to - 1);
    } else if from > 0 {
        lemma_total_width_grows(words, from - 1, from - 1);
    }
}

// ---------------------------------------------------------------------------
// Decoding undoes encoding
// ---------------------------------------------------------------------------

/// The codewords as they were given, in order of priority.
pub open spec fn given_by_priority(words: Seq<CodewordDescriptor>, given: Seq<Codeword>) -> Seq<Codeword> {
    Seq::new(
        words.len(),
        |i: int|
            Codeword {
                section_index: words[i].section_index,
                codeword_index: words[i].codeword_index,
                coefficients: find_codeword(given, words[i].section_index, words[i].codeword_index, 0)->0.coefficients,
            },
    )
}

/// The bits of a codeword that was given.
spec fn given_code(words: Seq<CodewordDescriptor>, given: Seq<Codeword>, i: int) -> Option<Seq<bool>> {
    match find_codeword(given, words[i].section_index, words[i].codeword_index, 0) {
        None => None,
        Some(word) => tuple_bits(words[i].codebook, word.coefficients),
    }
}

/// Each codeword stands at the left edge of its segment.
proof fn lemma_encoded_layout(
    words: Seq<CodewordDescriptor>,
    given: Seq<Codeword>,
    i: int,
    encoded: Seq<bool>,
    all: Seq<bool>,
    k: int,
)
    requires
        0 <= i <= words.len(),
        encoded.len() == total_width(words, i),
        encode_words(words, given, i, encoded) == Ok::<Seq<bool>, HcrError>(all),
    ensures
        all.len() == total_width(words, words.len() as int),
        all.take(encoded.len() as int) == encoded,
        encoded.len() <= all.len(),
        i <= k < words.len() ==> {
            &&& given_code(words, given, k) is Some
            &&& 0 <= total_width(words, k) <= total_width(words, k + 1) <= all.len()
            &&& all.subrange(total_width(words, k), total_width(words, k + 1)) == filled_segment(
                given_code(words, given, k)->0,
                codeword_limit(words[k].codebook),
            )
        },
    decreases words.len() - i,
{
    if i < words.len() {
        let word = find_codeword(given, words[i].section_index, words[i].codeword_index, 0)->0;
        let code = tuple_bits(words[i].codebook, word.coefficients)->0;
        lemma_tuple_length(words[i].codebook, word.coefficients);
        let segment = filled_segment(code, codeword_limit(words[i].codebook));
        let longer = encoded + segment;
        assert(segment.len() == codeword_limit(words[i].codebook));
        lemma_encoded_layout(words, given, i + 1, longer, all, k);
        assert(all.take(encoded.len() as int) =~= encoded) by {
            assert(longer.take(encoded.len() as int) =~= encoded);
            assert(all.take(longer.len() as int).take(encoded.len() as int) =~= all.take(encoded.len() as int));
        }
        if k == i {
            assert(all.subrange(encoded.len() as int, longer.len() as int) =~= segment) by {
                assert(all.take(longer.len() as int) == longer);
                assert forall|m: int| 0 <= m < segment.len() implies all[encoded.len() + m] == segment[m] by {
                    assert(all.take(longer.len() as int)[encoded.len() + m] == longer[encoded.len() + m]);
                }
            }
        }
    } else {
        assert(all.take(encoded.len() as int) =~= encoded);
    }
}

proof fn lemma_widest(words: Seq<CodewordDescriptor>, count: int, i: int)
    requires
        0 <= i < count,
    ensures
        codeword_limit(words[i].codebook) <= widest(words, count),
    decreases count,
{
    if i < count - 1 {
        lemma_widest(words, count - 1, i);
    }
}

/// The segments of fixed widths fill the payload exactly.
proof fn lemma_fixed_segments(words: Seq<CodewordDescriptor>, count: int, total: usize, longest: usize)
    requires
        0 <= count <= words.len(),
        total == total_width(words, words.len() as int),
        forall|i: int|
            0 <= i < words.len() ==> 0 < codeword_limit((#[trigger] words[i]).codebook) <= longest,
    ensures
        ({
            let placed = segmentation(words.take(count), total, longest);
            &&& !placed.full
            &&& placed.bit == total_width(words, count)
            &&& placed.segments.len() == count
            &&& forall|i: int|
                0 <= i < count ==> {
                    &&& (#[trigger] placed.segments[i]).left_bit == total_width(words, i)
                    &&& placed.segments[i].right_bit == total_width(words, i + 1) - 1
                }
        }),
    decreases count,
{
    if count > 0 {
        lemma_fixed_segments(words, count - 1, total, longest);
        assert(words.take(count).drop_last() =~= words.take(count - 1));
        assert(words.take(count).last() == words[count - 1]);
        lemma_total_width_grows(words, count, words.len() as int);
        lemma_total_width_grows(words, count - 1, words.len() as int);
        let before = segmentation(words.take(count - 1), total, longest);
        let after = segmentation(words.take(count), total, longest);
        assert(segment_width(words[count - 1].codebook, longest) == codeword_limit(words[count - 1].codebook));
        assert forall|i: int| 0 <= i < count implies {
            &&& (#[trigger] after.segments[i]).left_bit == total_width(words, i)
            &&& after.segments[i].right_bit == total_width(words, i + 1) - 1
        } by {
            if i < count - 1 {
                assert(after.segments[i] == before.segments[i]);
            }
        }
    }
}

/// The priority pass over segments of fixed widths gives back what was given.
proof fn lemma_first_pass(
    payload: Seq<bool>,
    words: Seq<CodewordDescriptor>,
    given: Seq<Codeword>,
    states: Seq<HcrSegmentState>,
    i: int,
    all: Seq<bool>,
) -> (rest: Seq<HcrSegmentState>)
    requires
        0 <= i <= words.len(),
        states.len() == words.len(),
        encode_words(words, given, 0, Seq::empty()) == Ok::<Seq<bool>, HcrError>(all),
        all.len() <= usize::MAX,
        all.len() <= payload.len(),
        payload.take(all.len() as int) == all,
        forall|k: int| 0 <= k < words.len() ==> 0 < codeword_limit((#[trigger] words[k]).codebook),
        forall|k: int|
            i <= k < words.len() ==> {
                &&& (#[trigger] states[k]).left_bit == total_width(words, k)
                &&& states[k].right_bit == total_width(words, k + 1) - 1
                &&& states[k].remaining_bits == codeword_limit(words[k].codebook)
            },
    ensures
        rest.len() == states.len(),
        decode_first(payload, words, states, i, given_by_priority(words, given).take(i)) == Ok::<
            (Seq<HcrSegmentState>, Seq<Codeword>),
            HcrError,
        >((rest, given_by_priority(words, given))),
    decreases words.len() - i,
{
    let target = given_by_priority(words, given);
    if i < words.len() {
        assert(total_width(words, 0) == 0);
        lemma_encoded_layout(words, given, 0, Seq::empty(), all, i);
        let state = states[i];
        let code = given_code(words, given, i)->0;
        let word = find_codeword(given, words[i].section_index, words[i].codeword_index, 0)->0;
        let width = codeword_limit(words[i].codebook);
        lemma_tuple_length(words[i].codebook, word.coefficients);
        let bits = directional_bits(payload, state, HcrReadDirection::LeftToRight);
        let segment = filled_segment(code, width);
        assert(bits =~= segment) by {
            assert forall|m: int| 0 <= m < width implies payload[state.left_bit + m] == segment[m] by {
                assert(payload.take(all.len() as int)[state.left_bit + m] == all[state.left_bit + m]);
                assert(all.subrange(total_width(words, i), total_width(words, i + 1))[m] == segment[m]);
            }
        }
        let cursor = BitCursor::at(bits, 0);
        assert(bits.subrange(0, code.len() as int) =~= code);
        lemma_tuple_decodes(words[i].codebook, word.coefficients, cursor);
        assert(decode_at_edge(payload, state, words[i].codebook, HcrReadDirection::LeftToRight) == Ok::<
            (Seq<i32>, int),
            HcrError,
        >((word.coefficients, code.len() as int)));
        let next = states.update(i, state.advanced(HcrReadDirection::LeftToRight, code.len() as int));
        assert(target.take(i).push(target[i]) =~= target.take(i + 1));
        lemma_first_pass(payload, words, given, next, i + 1, all)
    } else {
        assert(target.take(i) =~= target);
        states
    }
}

/// The codewords as they were given, in order of priority, each with the bits that
/// it takes at the left edge of its segment.
pub open spec fn given_at_left_edges(words: Seq<CodewordDescriptor>, given: Seq<Codeword>) -> Seq<PriorityCodeword> {
    Seq::new(
        words.len(),
        |i: int|
            {
                let word = given_by_priority(words, given)[i];
                let used = tuple_bits(words[i].codebook, word.coefficients)->0.len();
                PriorityCodeword {
                    section_index: word.section_index,
                    codeword_index: word.codeword_index,
                    coefficients: word.coefficients,
                    consumed_bits: used as usize,
                    remaining_left_bit: (total_width(words, i) + used) as usize,
                }
            },
    )
}

proof fn lemma_left_edges(
    payload: Seq<bool>,
    words: Seq<CodewordDescriptor>,
    given: Seq<Codeword>,
    segments: Seq<HcrSegment>,
    i: int,
    all: Seq<bool>,
)
    requires
        0 <= i <= words.len(),
        segments.len() == words.len(),
        encode_words(words, given, 0, Seq::empty()) == Ok::<Seq<bool>, HcrError>(all),
        all.len() <= usize::MAX,
        all.len() <= payload.len(),
        payload.take(all.len() as int) == all,
        forall|k: int|
            0 <= k < words.len() ==> {
                &&& (#[trigger] segments[k]).codebook == words[k].codebook
                &&& segments[k].section_index == words[k].section_index
                &&& segments[k].codeword_index == words[k].codeword_index
                &&& segments[k].left_bit == total_width(words, k)
                &&& segments[k].right_bit == total_width(words, k + 1) - 1
            },
    ensures
        decode_priority(payload, segments, i, given_at_left_edges(words, given).take(i)) == Ok::<
            Seq<PriorityCodeword>,
            HcrError,
        >(given_at_left_edges(words, given)),
    decreases words.len() - i,
{
    let target = given_at_left_edges(words, given);
    if i < words.len() {
        assert(total_width(words, 0) == 0);
        lemma_encoded_layout(words, given, 0, Seq::empty(), all, i);
        let code = given_code(words, given, i)->0;
        let word = find_codeword(given, words[i].section_index, words[i].codeword_index, 0)->0;
        let width = codeword_limit(words[i].codebook);
        lemma_tuple_length(words[i].codebook, word.coefficients);
        let segment = segments[i];
        let bits = payload.subrange(segment.left_bit as int, segment.right_bit + 1);
        let filled = filled_segment(code, width);
        assert(bits =~= filled) by {
            assert(bits.len() == width);
            assert forall|m: int| 0 <= m < width implies bits[m] == filled[m] by {
                assert(payload.take(all.len() as int)[segment.left_bit + m] == all[segment.left_bit + m]);
                assert(all.subrange(total_width(words, i), total_width(words, i + 1))[m] == filled[m]);
            }
        }
        let cursor = BitCursor::at(bits, 0);
        assert(bits.subrange(0, code.len() as int) =~= code);
        lemma_tuple_decodes(words[i].codebook, word.coefficients, cursor);
        assert(target.take(i).push(target[i]) =~= target.take(i + 1));
        lemma_left_edges(payload, words, given, segments, i + 1, all);
    } else {
        assert(target.take(i) =~= target);
    }
}

/// The priority pass alone decodes everything that was encoded: one entry for each
/// codeword, with its coefficients and the bits that they take. As for the whole
/// decoding, all sections are whole numbers of codewords long.
pub proof fn lemma_priority_pass_decodes(sections: Seq<HcrSection>, given: Seq<Codeword>, payload: Seq<bool>)
    requires
        sections.len() <= usize::MAX,
        first_section_error(sections, 0, true) is None,
        encoded_codewords(sections, given) matches Ok((side_info, bits)) && payload == bits + padding(bits.len()),
    ensures
        priority_codewords(payload, encoded_codewords(sections, given)->Ok_0.0, sections) == Ok::<
            Seq<PriorityCodeword>,
            HcrError,
        >(given_at_left_edges(codewords_by_priority(sections), given)),
{
    let (side_info, bits) = encoded_codewords(sections, given)->Ok_0;
    let words = codewords_by_priority(sections);
    let count = words.len() as int;
    let longest = widest(words, count);
    let total = side_info.reordered_spectral_bits;
    lemma_priority_codebooks(sections);
    assert forall|i: int| 0 <= i < words.len() implies 0 < codeword_limit((#[trigger] words[i]).codebook) <= longest by {
        assert(word_has_codebook(sections, words[i]));
        lemma_widest(words, count, i);
    }
    lemma_encoded_layout(words, given, 0, Seq::empty(), bits, 0);
    lemma_total_width_grows(words, 0, count);
    lemma_fixed_segments(words, count, total, longest);
    lemma_segmentation(words, total, longest);
    assert(words.take(count) =~= words);
    let segments = segmentation(words, total, longest).segments;
    assert(payload.take(bits.len() as int) =~= bits);
    assert forall|k: int| 0 <= k < words.len() implies {
        &&& (#[trigger] segments[k]).codebook == words[k].codebook
        &&& segments[k].section_index == words[k].section_index
        &&& segments[k].codeword_index == words[k].codeword_index
        &&& segments[k].left_bit == total_width(words, k)
        &&& segments[k].right_bit == total_width(words, k + 1) - 1
    } by {
        assert(segment_of(segments[k], words[k], total));
    }
    assert(given_at_left_edges(words, given).take(0) =~= Seq::<PriorityCodeword>::empty());
    lemma_left_edges(payload, words, given, segments, 0, bits);
}

/// Decoding what was encoded gives back the codewords, section by section, for
/// sections that are all whole numbers of codewords long.
pub proof fn lemma_encoded_codewords_decode(sections: Seq<HcrSection>, given: Seq<Codeword>, payload: Seq<bool>)
    requires
        sections.len() <= usize::MAX,
        first_section_error(sections, 0, true) is None,
        encoded_codewords(sections, given) matches Ok((side_info, bits)) && payload == bits + padding(bits.len()),
    ensures
        reordered_codewords(payload, encoded_codewords(sections, given)->Ok_0.0, sections) == Ok::<
            Seq<Codeword>,
            HcrError,
        >(by_section(given_by_priority(codewords_by_priority(sections), given), sections.len() as int)),
{
    let (side_info, bits) = encoded_codewords(sections, given)->Ok_0;
    let words = codewords_by_priority(sections);
    let count = words.len() as int;
    let longest = widest(words, count);
    let total = side_info.reordered_spectral_bits;
    lemma_priority_codebooks(sections);
    assert forall|i: int| 0 <= i < words.len() implies 0 < codeword_limit((#[trigger] words[i]).codebook) <= longest by {
        assert(word_has_codebook(sections, words[i]));
        lemma_widest(words, count, i);
    }
    lemma_encoded_layout(words, given, 0, Seq::empty(), bits, 0);
    lemma_total_width_grows(words, 0, count);
    lemma_fixed_segments(words, count, total, longest);
    assert(words.take(count) =~= words);
    let segments = segmentation(words, total, longest).segments;
    assert(payload.take(bits.len() as int) =~= bits);
    let target = given_by_priority(words, given);
    if count > 0 {
        let states = whole_segments(segments);
        assert forall|k: int| 0 <= k < words.len() implies {
            &&& (#[trigger] states[k]).left_bit == total_width(words, k)
            &&& states[k].right_bit == total_width(words, k + 1) - 1
            &&& states[k].remaining_bits == codeword_limit(words[k].codebook)
        } by {
            assert(segments[k].left_bit == total_width(words, k));
            lemma_total_width_grows(words, k + 1, count);
            lemma_total_width_grows(words, k, count);
        }
        assert(target.take(0) =~= Seq::<Codeword>::empty());
        let rest = lemma_first_pass(payload, words, given, states, 0, bits);
    } else {
        assert(target =~= Seq::<Codeword>::empty());
        lemma_by_section_empty(target, sections.len() as int);
    }
}

proof fn lemma_by_section_empty(words: Seq<Codeword>, sections: int)
    requires
        words.len() == 0,
    ensures
        by_section(words, sections) == Seq::<Codeword>::empty(),
    decreases sections,
{
    if sections > 0 {
        lemma_by_section_empty(words, sections - 1);
        assert(by_section(words, sections) =~= Seq::<Codeword>::empty());
    }
}

} // verus!
