//! Decoding of reordered codewords.

use vstd::prelude::*;

use crate::bits::{bits_of, BitCursor, BitError, BitReader, BitWriter};
use crate::huffman::HuffmanError;
use crate::spectral::{
    decode_spectral_tuple, decode_tuple, lemma_decode_frame, lemma_decode_prefix, table_codebook, SpectralError,
};

use super::grid::{
    codebook_priority, codewords_by_priority, first_section_error, lemma_segmentation, lemma_priority_codebooks,
    prepare_segmentation_grid, segment_of, word_has_codebook, segmentation, sorted_codeword_descriptors,
    CodewordDescriptor, HcrSegment,
};
use super::sections::HcrSection;
use super::segment::{
    copy_bit_range, decode_at_edge, decode_segment_codeword, restore_segment_bits, take_bit, take_segment_bit,
    HcrReadDirection, HcrSegmentState,
};
use super::side_info::{HcrError, HcrSideInfo};

verus! {

/// A codeword decoded from the left edge of its segment.
#[derive(Debug, Clone, PartialEq, Eq)]
pub struct HcrPriorityCodeword {
    pub section_index: usize,
    pub codeword_index: usize,
    pub coefficients: Vec<i32>,
    pub consumed_bits: usize,
    pub remaining_left_bit: usize,
}

/// A decoded codeword.
#[derive(Debug, PartialEq, Eq)]
pub struct HcrDecodedCodeword {
    pub section_index: usize,
    pub codeword_index: usize,
    pub coefficients: Vec<i32>,
}

/// A codeword with its coefficients as a sequence.
pub struct Codeword {
    pub section_index: usize,
    pub codeword_index: usize,
    pub coefficients: Seq<i32>,
}

/// A priority codeword with its coefficients as a sequence.
pub struct PriorityCodeword {
    pub section_index: usize,
    pub codeword_index: usize,
    pub coefficients: Seq<i32>,
    pub consumed_bits: usize,
    pub remaining_left_bit: usize,
}

impl View for HcrDecodedCodeword {
    type V = Codeword;

    open spec fn view(&self) -> Codeword {
        Codeword {
            section_index: self.section_index,
            codeword_index: self.codeword_index,
            coefficients: self.coefficients@,
        }
    }
}

impl View for HcrPriorityCodeword {
    type V = PriorityCodeword;

    open spec fn view(&self) -> PriorityCodeword {
        PriorityCodeword {
            section_index: self.section_index,
            codeword_index: self.codeword_index,
            coefficients: self.coefficients@,
            consumed_bits: self.consumed_bits,
            remaining_left_bit: self.remaining_left_bit,
        }
    }
}

impl Clone for HcrDecodedCodeword {
    fn clone(&self) -> (copy: HcrDecodedCodeword)
        ensures
            copy@ == self@,
    {
        let coefficients = self.coefficients.clone();
        assert(coefficients@ =~= self.coefficients@);
        HcrDecodedCodeword { section_index: self.section_index, codeword_index: self.codeword_index, coefficients }
    }
}

/// The codewords of a vector.
pub open spec fn codeword_views(words: Seq<HcrDecodedCodeword>) -> Seq<Codeword> {
    words.map_values(|word: HcrDecodedCodeword| word@)
}

/// The priority codewords of a vector.
pub open spec fn priority_views(words: Seq<HcrPriorityCodeword>) -> Seq<PriorityCodeword> {
    words.map_values(|word: HcrPriorityCodeword| word@)
}

/// Whether an error says that the input ended too early.
pub open spec fn is_eof(error: SpectralError) -> bool {
    match error {
        SpectralError::Bit(BitError::UnexpectedEof { .. }) => true,
        SpectralError::Huffman(HuffmanError::Bit(BitError::UnexpectedEof { .. })) => true,
        _ => false,
    }
}

/// Whether an error says that the input ended too early.
pub fn spectral_is_unexpected_eof(error: &SpectralError) -> (result: bool)
    ensures
        result == is_eof(*error),
{
    match error {
        SpectralError::Bit(BitError::UnexpectedEof { .. }) => true,
        SpectralError::Huffman(HuffmanError::Bit(BitError::UnexpectedEof { .. })) => true,
        _ => false,
    }
}

/// Decoding a codeword from exactly the bits gathered so far: the coefficients
/// and the number of bits that they took, or nothing where bits are missing.
pub open spec fn try_decode(bits: Seq<bool>, codebook: u8) -> Result<Option<(Seq<i32>, int)>, HcrError> {
    match decode_tuple(codebook, BitCursor::at(bits, 0)) {
        (Ok(coefficients), next) => Ok(Some((coefficients, next.pos))),
        (Err(error), _) => if is_eof(error) {
            Ok(None)
        } else {
            Err(HcrError::Spectral(error))
        },
    }
}

/// Tries to decode a codeword from the bits gathered so far.
pub fn try_decode_exact(bits: &[bool], codebook: u8) -> (result: Result<Option<(Vec<i32>, usize)>, HcrError>)
    requires
        bits@.len() <= usize::MAX - 8,
    ensures
        match try_decode(bits@, codebook) {
            Ok(Some((coefficients, used))) => result matches Ok(Some((values, count))) && values@ == coefficients && count
                == used && used <= bits@.len(),
            Ok(None) => result matches Ok(None),
            Err(error) => result == Err::<Option<(Vec<i32>, usize)>, HcrError>(error),
        },
{
    let mut writer = BitWriter::new();
    let mut index: usize = 0;
    assert(bits@.take(0) =~= Seq::<bool>::empty());
    while index < bits.len()
        invariant
            index <= bits@.len(),
            writer@ == bits@.take(index as int),
        decreases bits@.len() - index,
    {
        writer.write_bool(bits[index]);
        assert(bits@.take(index + 1) =~= bits@.take(index as int).push(bits@[index as int]));
        index = index + 1;
    }
    assert(bits@.take(index as int) =~= bits@);
    let packed: Vec<u8> = writer.finish();
    let mut reader = match BitReader::with_bit_len(packed.as_slice(), bits.len()) {
        Ok(reader) => reader,
        Err(error) => {
            assert(packed@.len() * 8 >= bits@.len());
            return Err(HcrError::Bit(error));
        },
    };
    assert(bits_of(packed@).take(bits@.len() as int) =~= bits@);
    proof {
        lemma_decode_frame(codebook, BitCursor::at(bits@, 0));
    }
    match decode_spectral_tuple(&mut reader, codebook) {
        Ok(coefficients) => Ok(Some((coefficients, reader.bits_read()))),
        Err(error) => if spectral_is_unexpected_eof(&error) {
            Ok(None)
        } else {
            Err(HcrError::Spectral(error))
        },
    }
}

// ---------------------------------------------------------------------------
// Priority codewords
// ---------------------------------------------------------------------------

/// Decoding the priority codewords of the segments from index `i` on.
pub open spec fn decode_priority(
    payload: Seq<bool>,
    segments: Seq<HcrSegment>,
    i: int,
    decoded: Seq<PriorityCodeword>,
) -> Result<Seq<PriorityCodeword>, HcrError>
    decreases segments.len() - i,
{
    if i < 0 || i >= segments.len() {
        Ok(decoded)
    } else {
        let segment = segments[i];
        match decode_tuple(
            segment.codebook,
            BitCursor::at(payload.subrange(segment.left_bit as int, segment.right_bit + 1), 0),
        ) {
            (Ok(coefficients), next) => decode_priority(
                payload,
                segments,
                i + 1,
                decoded.push(
                    PriorityCodeword {
                        section_index: segment.section_index,
                        codeword_index: segment.codeword_index,
                        coefficients,
                        consumed_bits: next.pos as usize,
                        remaining_left_bit: (segment.left_bit + next.pos) as usize,
                    },
                ),
            ),
            (Err(error), _) => Err(HcrError::Spectral(error)),
        }
    }
}

/// What decoding the priority codewords of a payload gives.
pub open spec fn priority_codewords(payload: Seq<bool>, side_info: HcrSideInfo, sections: Seq<HcrSection>) -> Result<
    Seq<PriorityCodeword>,
    HcrError,
> {
    if payload.len() < side_info.reordered_spectral_bits {
        Err(
            HcrError::PayloadTooShort {
                needed_bits: side_info.reordered_spectral_bits,
                available_bits: payload.len() as usize,
            },
        )
    } else {
        match first_section_error(sections, 0, true) {
            Some(error) => Err(error),
            None => decode_priority(
                payload,
                segmentation(
                    codewords_by_priority(sections),
                    side_info.reordered_spectral_bits,
                    side_info.longest_codeword_bits,
                ).segments,
                0,
                Seq::empty(),
            ),
        }
    }
}

/// Decodes the priority codeword at the left edge of every segment. What is
/// left of the segments is for the codewords of lower priority.
pub fn decode_priority_codewords(payload: &[u8], side_info: &HcrSideInfo, sections: &[HcrSection]) -> (result: Result<
    Vec<HcrPriorityCodeword>,
    HcrError,
>)
    requires
        payload@.len() * 8 <= usize::MAX - 8,
    ensures
        match priority_codewords(bits_of(payload@), *side_info, sections@) {
            Ok(words) => result matches Ok(list) && priority_views(list@) == words,
            Err(error) => result == Err::<Vec<HcrPriorityCodeword>, HcrError>(error),
        },
{
    if payload.len() * 8 < side_info.reordered_spectral_bits {
        return Err(
            HcrError::PayloadTooShort {
                needed_bits: side_info.reordered_spectral_bits,
                available_bits: payload.len() * 8,
            },
        );
    }
    let segments: Vec<HcrSegment> = match prepare_segmentation_grid(side_info, sections) {
        Ok(segments) => segments,
        Err(error) => {
            return Err(error);
        },
    };
    let ghost total = side_info.reordered_spectral_bits;
    let ghost words = codewords_by_priority(sections@);
    proof {
        assert(sections@.len() == sections.len());
        lemma_priority_codebooks(sections@);
        lemma_segmentation(words, total, side_info.longest_codeword_bits);
    }
    let mut decoded: Vec<HcrPriorityCodeword> = Vec::new();
    let mut index: usize = 0;
    assert(priority_views(decoded@) =~= Seq::<PriorityCodeword>::empty());
    while index < segments.len()
        invariant
            index <= segments@.len(),
            payload@.len() * 8 <= usize::MAX - 8,
            total <= payload@.len() * 8,
            segments@.len() <= words.len(),
            forall|i: int| 0 <= i < segments@.len() ==> segment_of(#[trigger] segments@[i], words[i], total),
            decode_priority(bits_of(payload@), segments@, index as int, priority_views(decoded@)) == priority_codewords(
                bits_of(payload@),
                *side_info,
                sections@,
            ),
        decreases segments@.len() - index,
    {
        let segment = segments[index];
        assert(segment_of(segments@[index as int], words[index as int], total));
        let width: usize = segment.width();
        let packed: Vec<u8> = copy_bit_range(payload, segment.left_bit, width);
        let ghost wanted = bits_of(payload@).subrange(segment.left_bit as int, segment.right_bit + 1);
        let mut reader = match BitReader::with_bit_len(packed.as_slice(), width) {
            Ok(reader) => reader,
            Err(error) => {
                assert(false);
                return Err(HcrError::Bit(error));
            },
        };
        assert(bits_of(packed@).take(width as int) =~= wanted);
        let coefficients: Vec<i32> = match decode_spectral_tuple(&mut reader, segment.codebook) {
            Ok(coefficients) => coefficients,
            Err(error) => {
                return Err(HcrError::Spectral(error));
            },
        };
        proof {
            lemma_decode_frame(segment.codebook, BitCursor::at(wanted, 0));
        }
        let consumed_bits: usize = reader.bits_read();
        let ghost before = priority_views(decoded@);
        let word = HcrPriorityCodeword {
            section_index: segment.section_index,
            codeword_index: segment.codeword_index,
            coefficients,
            consumed_bits,
            remaining_left_bit: segment.left_bit + consumed_bits,
        };
        let ghost seen = word@;
        decoded.push(word);
        assert(priority_views(decoded@) =~= before.push(seen));
        index = index + 1;
    }
    Ok(decoded)
}

// ---------------------------------------------------------------------------
// Codewords of lower priority
// ---------------------------------------------------------------------------

/// A codeword of which bits are still gathered.
pub struct Gathered {
    pub bits: Seq<bool>,
    pub coefficients: Seq<i32>,
    pub complete: bool,
}

/// The segments and the codewords of the set that is being gathered.
pub struct Gathering {
    pub states: Seq<HcrSegmentState>,
    pub words: Seq<Gathered>,
}

/// The other reading direction.
pub open spec fn flipped(direction: HcrReadDirection) -> HcrReadDirection {
    match direction {
        HcrReadDirection::LeftToRight => HcrReadDirection::RightToLeft,
        HcrReadDirection::RightToLeft => HcrReadDirection::LeftToRight,
    }
}

/// Moving bits from a segment to a codeword until the codeword is complete or
/// the segment is empty.
pub open spec fn feed(
    payload: Seq<bool>,
    state: HcrSegmentState,
    word: Gathered,
    codebook: u8,
    direction: HcrReadDirection,
) -> Result<(HcrSegmentState, Gathered), HcrError>
    decreases state.remaining_bits,
{
    if word.complete || state.remaining_bits == 0 {
        Ok((state, word))
    } else {
        match take_bit(payload, state, direction) {
            Err(error) => Err(error),
            Ok((bit, next)) => {
                let bits = word.bits.push(bit);
                match try_decode(bits, codebook) {
                    Err(error) => Err(error),
                    Ok(Some((coefficients, used))) => Ok(
                        (
                            next.restored(direction, bits.len() - used),
                            Gathered { bits: bits.take(used), coefficients, complete: true },
                        ),
                    ),
                    Ok(None) => feed(
                        payload,
                        next,
                        Gathered { bits, coefficients: word.coefficients, complete: false },
                        codebook,
                        direction,
                    ),
                }
            },
        }
    }
}

/// One trial from segment `segment` on: each segment feeds the codeword that is
/// `trial` places before it, around the end.
pub open spec fn feed_segments(
    payload: Seq<bool>,
    set: Seq<CodewordDescriptor>,
    gathering: Gathering,
    trial: int,
    segment: int,
    direction: HcrReadDirection,
) -> Result<Gathering, HcrError>
    decreases gathering.states.len() - segment,
{
    let count = gathering.states.len() as int;
    if segment < 0 || segment >= count {
        Ok(gathering)
    } else {
        let index = (segment + count - trial) % count;
        if index >= gathering.words.len() {
            feed_segments(payload, set, gathering, trial, segment + 1, direction)
        } else {
            match feed(payload, gathering.states[segment], gathering.words[index], set[index].codebook, direction) {
                Err(error) => Err(error),
                Ok((state, word)) => feed_segments(
                    payload,
                    set,
                    Gathering {
                        states: gathering.states.update(segment, state),
                        words: gathering.words.update(index, word),
                    },
                    trial,
                    segment + 1,
                    direction,
                ),
            }
        }
    }
}

/// As many trials as there are segments, from `trial` on.
pub open spec fn run_trials(
    payload: Seq<bool>,
    set: Seq<CodewordDescriptor>,
    gathering: Gathering,
    trial: int,
    count: int,
    direction: HcrReadDirection,
) -> Result<Gathering, HcrError>
    decreases count - trial,
{
    if trial >= count {
        Ok(gathering)
    } else {
        match feed_segments(payload, set, gathering, trial, 0, direction) {
            Err(error) => Err(error),
            Ok(next) => run_trials(payload, set, next, trial + 1, count, direction),
        }
    }
}

/// Collecting the codewords of a set from index `i` on behind those decoded
/// before; the first incomplete one is an error.
pub open spec fn collect_set(
    set: Seq<CodewordDescriptor>,
    words: Seq<Gathered>,
    i: int,
    decoded: Seq<Codeword>,
) -> Result<Seq<Codeword>, HcrError>
    decreases set.len() - i,
{
    if i < 0 || i >= set.len() {
        Ok(decoded)
    } else if !words[i].complete {
        Err(
            HcrError::IncompleteCodeword {
                section: set[i].section_index,
                codeword: set[i].codeword_index,
                accumulated_bits: words[i].bits.len() as usize,
            },
        )
    } else {
        collect_set(
            set,
            words,
            i + 1,
            decoded.push(
                Codeword {
                    section_index: set[i].section_index,
                    codeword_index: set[i].codeword_index,
                    coefficients: words[i].coefficients,
                },
            ),
        )
    }
}

/// Codewords of which nothing was gathered yet.
pub open spec fn fresh_words(count: nat) -> Seq<Gathered> {
    Seq::new(count, |i: int| Gathered { bits: Seq::empty(), coefficients: Seq::empty(), complete: false })
}

/// Decoding the codewords from index `start` on, in sets of one codeword for
/// each segment, with alternating direction.
pub open spec fn decode_sets(
    payload: Seq<bool>,
    words: Seq<CodewordDescriptor>,
    start: int,
    states: Seq<HcrSegmentState>,
    direction: HcrReadDirection,
    decoded: Seq<Codeword>,
) -> Result<Seq<Codeword>, HcrError>
    decreases words.len() - start,
{
    let count = states.len() as int;
    if count == 0 || start < 0 || start >= words.len() {
        Ok(decoded)
    } else {
        let end = if start + count <= words.len() {
            start + count
        } else {
            words.len() as int
        };
        let set = words.subrange(start, end);
        match run_trials(
            payload,
            set,
            Gathering { states, words: fresh_words(set.len()) },
            0,
            count,
            direction,
        ) {
            Err(error) => Err(error),
            Ok(gathering) => match collect_set(set, gathering.words, 0, decoded) {
                Err(error) => Err(error),
                Ok(longer) => if gathering.states.len() == states.len() {
                    decode_sets(payload, words, end, gathering.states, flipped(direction), longer)
                } else {
                    Ok(longer)
                },
            },
        }
    }
}

/// Decoding the priority codewords of the segments from index `i` on: their
/// coefficients, and what is left of the segments.
pub open spec fn decode_first(
    payload: Seq<bool>,
    words: Seq<CodewordDescriptor>,
    states: Seq<HcrSegmentState>,
    i: int,
    decoded: Seq<Codeword>,
) -> Result<(Seq<HcrSegmentState>, Seq<Codeword>), HcrError>
    decreases states.len() - i,
{
    if i < 0 || i >= states.len() {
        Ok((states, decoded))
    } else {
        match decode_at_edge(payload, states[i], words[i].codebook, HcrReadDirection::LeftToRight) {
            Err(error) => Err(error),
            Ok((coefficients, consumed)) => decode_first(
                payload,
                words,
                states.update(i, states[i].advanced(HcrReadDirection::LeftToRight, consumed)),
                i + 1,
                decoded.push(
                    Codeword {
                        section_index: words[i].section_index,
                        codeword_index: words[i].codeword_index,
                        coefficients,
                    },
                ),
            ),
        }
    }
}

/// The codewords of one section among the first `count` of a sequence.
pub open spec fn of_section(words: Seq<Codeword>, section: int, count: int) -> Seq<Codeword>
    decreases count,
{
    if count <= 0 {
        Seq::empty()
    } else if words[count - 1].section_index == section {
        of_section(words, section, count - 1).push(words[count - 1])
    } else {
        of_section(words, section, count - 1)
    }
}

/// The codewords of the first `sections` sections, section by section.
pub open spec fn by_section(words: Seq<Codeword>, sections: int) -> Seq<Codeword>
    decreases sections,
{
    if sections <= 0 {
        Seq::empty()
    } else {
        by_section(words, sections - 1) + of_section(words, sections - 1, words.len() as int)
    }
}

/// The states of segments from which nothing was taken.
pub open spec fn whole_segments(segments: Seq<HcrSegment>) -> Seq<HcrSegmentState> {
    segments.map_values(|segment: HcrSegment| HcrSegmentState::whole(segment))
}

/// What decoding a reordered payload gives.
pub open spec fn reordered_codewords(payload: Seq<bool>, side_info: HcrSideInfo, sections: Seq<HcrSection>) -> Result<
    Seq<Codeword>,
    HcrError,
> {
    if payload.len() < side_info.reordered_spectral_bits {
        Err(
            HcrError::PayloadTooShort {
                needed_bits: side_info.reordered_spectral_bits,
                available_bits: payload.len() as usize,
            },
        )
    } else {
        match first_section_error(sections, 0, true) {
            Some(error) => Err(error),
            None => {
                let words = codewords_by_priority(sections);
                let segments = segmentation(
                    words,
                    side_info.reordered_spectral_bits,
                    side_info.longest_codeword_bits,
                ).segments;
                if segments.len() == 0 {
                    Ok(Seq::empty())
                } else {
                    match decode_first(payload, words, whole_segments(segments), 0, Seq::empty()) {
                        Err(error) => Err(error),
                        Ok((states, decoded)) => match decode_sets(
                            payload,
                            words,
                            segments.len() as int,
                            states,
                            HcrReadDirection::RightToLeft,
                            decoded,
                        ) {
                            Err(error) => Err(error),
                            Ok(all) => Ok(by_section(all, sections.len() as int)),
                        },
                    }
                }
            },
        }
    }
}

/// A codeword whose bits are gathered.
struct PendingCodeword {
    coefficients: Vec<i32>,
    bits: Vec<bool>,
    complete: bool,
}

impl View for PendingCodeword {
    type V = Gathered;

    closed spec fn view(&self) -> Gathered {
        Gathered { bits: self.bits@, coefficients: self.coefficients@, complete: self.complete }
    }
}

/// Whether a codeword that is not complete lacks bits.
spec fn lacks_bits(word: Gathered, codebook: u8) -> bool {
    !word.complete ==> try_decode(word.bits, codebook) == Ok::<Option<(Seq<i32>, int)>, HcrError>(None)
}

/// A codeword that is complete with one more bit takes all its bits.
proof fn lemma_no_surplus(bits: Seq<bool>, bit: bool, codebook: u8)
    requires
        try_decode(bits, codebook) == Ok::<Option<(Seq<i32>, int)>, HcrError>(None),
    ensures
        try_decode(bits.push(bit), codebook) matches Ok(Some((coefficients, count))) ==> count > bits.len(),
{
    let longer = bits.push(bit);
    match try_decode(longer, codebook) {
        Ok(Some((coefficients, used))) => {
            if used <= bits.len() {
                lemma_decode_frame(codebook, BitCursor::at(longer, 0));
                lemma_decode_prefix(codebook, longer, coefficients, used, bits.len() as int);
                assert(longer.take(bits.len() as int) =~= bits);
            }
        },
        _ => {},
    }
}

/// Bits can be missing only from a codeword of a spectral codebook.
pub proof fn lemma_empty_lacks_bits(codebook: u8)
    requires
        codebook_priority(codebook) > 0,
    ensures
        try_decode(Seq::empty(), codebook) == Ok::<Option<(Seq<i32>, int)>, HcrError>(None),
{
    let book = table_codebook(codebook);
    crate::codebook_laws::lemma_codebook(book, 0);
    crate::codebook_laws::lemma_codebook_rows(book);
}

/// Moves bits from a segment to a codeword.
fn feed_codeword(
    payload: &[u8],
    state: &mut HcrSegmentState,
    word: &mut PendingCodeword,
    codebook: u8,
    direction: HcrReadDirection,
) -> (result: Result<(), HcrError>)
    requires
        payload@.len() * 8 <= usize::MAX - 8,
        old(state).well_formed(),
        old(state).remaining_bits > 0 ==> old(state).right_bit < payload@.len() * 8,
        lacks_bits(old(word)@, codebook),
        old(word)@.bits.len() + old(state).remaining_bits <= payload@.len() * 8,
    ensures
        match feed(bits_of(payload@), *old(state), old(word)@, codebook, direction) {
            Ok((next, gathered)) => {
                &&& result is Ok
                &&& *final(state) == next
                &&& final(word)@ == gathered
                &&& final(state).well_formed()
                &&& final(state).remaining_bits > 0 ==> final(state).right_bit < payload@.len() * 8
                &&& lacks_bits(final(word)@, codebook)
                &&& final(word)@.bits.len() + final(state).remaining_bits == old(word)@.bits.len()
                    + old(state).remaining_bits
            },
            Err(error) => result == Err::<(), HcrError>(error),
        },
{
    let ghost bits = bits_of(payload@);
    while !word.complete && state.remaining_bits() != 0
        invariant
            bits == bits_of(payload@),
            payload@.len() * 8 <= usize::MAX - 8,
            state.well_formed(),
            state.remaining_bits > 0 ==> state.right_bit < payload@.len() * 8,
            lacks_bits(word@, codebook),
            word@.bits.len() + state.remaining_bits <= payload@.len() * 8,
            word@.bits.len() + state.remaining_bits == old(word)@.bits.len() + old(state).remaining_bits,
            feed(bits, *state, word@, codebook, direction) == feed(bits, *old(state), old(word)@, codebook, direction),
        decreases state.remaining_bits,
    {
        let ghost before = word@;
        let ghost earlier = *state;
        let bit: bool = match take_segment_bit(payload, state, direction) {
            Ok(bit) => bit,
            Err(error) => {
                return Err(error);
            },
        };
        word.bits.push(bit);
        proof {
            lemma_no_surplus(before.bits, bit, codebook);
        }
        match try_decode_exact(word.bits.as_slice(), codebook) {
            Ok(Some((coefficients, consumed))) => {
                let pushed_back: usize = word.bits.len() - consumed;
                assert(pushed_back == 0);
                restore_segment_bits(state, direction, pushed_back);
                word.bits.truncate(consumed);
                word.coefficients = coefficients;
                word.complete = true;
                assert(word.bits@ =~= before.bits.push(bit).take(consumed as int));
                assert(word.bits@ =~= before.bits.push(bit));
            },
            Ok(None) => {},
            Err(error) => {
                return Err(error);
            },
        }
    }
    Ok(())
}

spec fn pending_views(words: Seq<PendingCodeword>) -> Seq<Gathered> {
    words.map_values(|word: PendingCodeword| word@)
}

/// The sum of a sequence.
spec fn total_of(values: Seq<int>) -> int
    decreases values.len(),
{
    if values.len() == 0 {
        0
    } else {
        total_of(values.drop_last()) + values.last()
    }
}

proof fn lemma_total_update(values: Seq<int>, i: int, value: int)
    requires
        0 <= i < values.len(),
    ensures
        total_of(values.update(i, value)) == total_of(values) - values[i] + value,
    decreases values.len(),
{
    let updated = values.update(i, value);
    if i == values.len() - 1 {
        assert(updated.drop_last() =~= values.drop_last());
    } else {
        lemma_total_update(values.drop_last(), i, value);
        assert(updated.drop_last() =~= values.drop_last().update(i, value));
    }
}

proof fn lemma_total_bound(values: Seq<int>, i: int)
    requires
        forall|k: int| 0 <= k < values.len() ==> 0 <= #[trigger] values[k],
    ensures
        0 <= total_of(values),
        0 <= i < values.len() ==> values[i] <= total_of(values),
    decreases values.len(),
{
    if values.len() > 0 {
        lemma_total_bound(values.drop_last(), i);
    }
}

spec fn remaining_counts(states: Seq<HcrSegmentState>) -> Seq<int> {
    states.map_values(|state: HcrSegmentState| state.remaining_bits as int)
}

spec fn gathered_counts(words: Seq<Gathered>) -> Seq<int> {
    words.map_values(|word: Gathered| word.bits.len() as int)
}

/// The bits that wait in the segments and in the codewords.
spec fn waiting_bits(gathering: Gathering) -> int {
    total_of(remaining_counts(gathering.states)) + total_of(gathered_counts(gathering.words))
}

/// Whether the segments lie within a payload of `len` bits.
spec fn states_within(states: Seq<HcrSegmentState>, len: nat) -> bool {
    forall|i: int|
        0 <= i < states.len() ==> (#[trigger] states[i]).well_formed() && (states[i].remaining_bits > 0
            ==> states[i].right_bit < len)
}

/// Whether the codewords that are not complete lack bits.
spec fn words_lack_bits(words: Seq<Gathered>, set: Seq<CodewordDescriptor>) -> bool {
    &&& words.len() == set.len()
    &&& forall|i: int| 0 <= i < words.len() ==> lacks_bits(#[trigger] words[i], set[i].codebook)
}

/// One segment feeds one codeword.
fn feed_pair(
    payload: &[u8],
    states: &mut Vec<HcrSegmentState>,
    pending: &mut Vec<PendingCodeword>,
    segment: usize,
    index: usize,
    codebook: u8,
    direction: HcrReadDirection,
    Ghost(set): Ghost<Seq<CodewordDescriptor>>,
) -> (result: Result<(), HcrError>)
    requires
        payload@.len() * 8 <= usize::MAX - 8,
        segment < old(states)@.len(),
        index < old(pending)@.len(),
        codebook == set[index as int].codebook,
        states_within(old(states)@, payload@.len() * 8),
        words_lack_bits(pending_views(old(pending)@), set),
        waiting_bits(Gathering { states: old(states)@, words: pending_views(old(pending)@) }) <= payload@.len() * 8,
    ensures
        match feed(
            bits_of(payload@),
            old(states)@[segment as int],
            pending_views(old(pending)@)[index as int],
            codebook,
            direction,
        ) {
            Ok((state, word)) => {
                &&& result is Ok
                &&& final(states)@ == old(states)@.update(segment as int, state)
                &&& pending_views(final(pending)@) == pending_views(old(pending)@).update(index as int, word)
                &&& states_within(final(states)@, payload@.len() * 8)
                &&& words_lack_bits(pending_views(final(pending)@), set)
                &&& waiting_bits(Gathering { states: final(states)@, words: pending_views(final(pending)@) })
                    <= payload@.len() * 8
            },
            Err(error) => result == Err::<(), HcrError>(error),
        },
{
    let ghost states0 = states@;
    let ghost words0 = pending_views(pending@);
    let mut state: HcrSegmentState = states[segment];
    proof {
        assert(words0[index as int] == pending@[index as int]@);
        assert(lacks_bits(words0[index as int], set[index as int].codebook));
        lemma_total_bound(remaining_counts(states0), segment as int);
        lemma_total_bound(gathered_counts(words0), index as int);
        assert(remaining_counts(states0)[segment as int] == states0[segment as int].remaining_bits);
        assert(gathered_counts(words0)[index as int] == words0[index as int].bits.len());
    }
    match feed_codeword(payload, &mut state, &mut pending[index], codebook, direction) {
        Ok(()) => {},
        Err(error) => {
            return Err(error);
        },
    }
    states.set(segment, state);
    proof {
        let words1 = pending_views(pending@);
        let word = words1[index as int];
        assert(words1 =~= words0.update(index as int, word));
        lemma_total_update(remaining_counts(states0), segment as int, state.remaining_bits as int);
        lemma_total_update(gathered_counts(words0), index as int, word.bits.len() as int);
        assert(remaining_counts(states@) =~= remaining_counts(states0).update(
            segment as int,
            state.remaining_bits as int,
        ));
        assert(gathered_counts(words1) =~= gathered_counts(words0).update(index as int, word.bits.len() as int));
    }
    Ok(())
}

/// Gathers the codewords of one set.
fn gather_set(
    payload: &[u8],
    states: &mut Vec<HcrSegmentState>,
    words: &Vec<CodewordDescriptor>,
    start: usize,
    end: usize,
    direction: HcrReadDirection,
) -> (result: Result<Vec<PendingCodeword>, HcrError>)
    requires
        payload@.len() * 8 <= usize::MAX - 8,
        start <= end <= words@.len(),
        states_within(old(states)@, payload@.len() * 8),
        total_of(remaining_counts(old(states)@)) <= payload@.len() * 8,
        forall|i: int| 0 <= i < words@.len() ==> codebook_priority((#[trigger] words@[i]).codebook) > 0,
    ensures
        match run_trials(
            bits_of(payload@),
            words@.subrange(start as int, end as int),
            Gathering { states: old(states)@, words: fresh_words((end - start) as nat) },
            0,
            old(states)@.len() as int,
            direction,
        ) {
            Ok(gathering) => {
                &&& result matches Ok(pending) && pending_views(pending@) == gathering.words
                &&& final(states)@ == gathering.states
                &&& final(states)@.len() == old(states)@.len()
                &&& gathering.words.len() == end - start
                &&& states_within(final(states)@, payload@.len() * 8)
                &&& total_of(remaining_counts(final(states)@)) <= payload@.len() * 8
            },
            Err(error) => result matches Err(found) && found == error,
        },
{
    let ghost bits = bits_of(payload@);
    let ghost set = words@.subrange(start as int, end as int);
    let count: usize = states.len();
    let mut pending: Vec<PendingCodeword> = Vec::new();
    let mut filled: usize = start;
    while filled < end
        invariant
            start <= filled <= end <= words@.len(),
            set == words@.subrange(start as int, end as int),
            forall|i: int| 0 <= i < words@.len() ==> codebook_priority((#[trigger] words@[i]).codebook) > 0,
            pending_views(pending@) =~= fresh_words((filled - start) as nat),
            forall|i: int| 0 <= i < filled - start ==> lacks_bits(#[trigger] fresh_words((filled - start) as nat)[i], set[i].codebook),
        decreases end - filled,
    {
        proof {
            assert(codebook_priority(words@[filled as int].codebook) > 0);
            assert(set[filled - start] == words@[filled as int]);
            lemma_empty_lacks_bits(words@[filled as int].codebook);
        }
        let word = PendingCodeword { coefficients: Vec::new(), bits: Vec::new(), complete: false };
        assert(word@.bits =~= Seq::<bool>::empty() && word@.coefficients =~= Seq::<i32>::empty());
        let ghost before = pending_views(pending@);
        let ghost seen = word@;
        pending.push(word);
        proof {
            assert(pending_views(pending@) =~= before.push(seen));
            assert(fresh_words((filled + 1 - start) as nat) =~= fresh_words((filled - start) as nat).push(seen));
            assert forall|i: int| 0 <= i < filled + 1 - start implies lacks_bits(
                #[trigger] fresh_words((filled + 1 - start) as nat)[i],
                set[i].codebook,
            ) by {
                if i < filled - start {
                    assert(lacks_bits(fresh_words((filled - start) as nat)[i], set[i].codebook));
                }
            }
        }
        filled = filled + 1;
    }
    proof {
        let fresh = fresh_words((end - start) as nat);
        assert(pending_views(pending@) == fresh);
        lemma_fresh_total((end - start) as nat);
    }
    let mut trial: usize = 0;
    while trial < count
        invariant
            trial <= count,
            count == states@.len(),
            count == old(states)@.len(),
            bits == bits_of(payload@),
            payload@.len() * 8 <= usize::MAX - 8,
            start <= end <= words@.len(),
            set == words@.subrange(start as int, end as int),
            states_within(states@, payload@.len() * 8),
            words_lack_bits(pending_views(pending@), set),
            waiting_bits(Gathering { states: states@, words: pending_views(pending@) }) <= payload@.len() * 8,
            run_trials(
                bits,
                set,
                Gathering { states: states@, words: pending_views(pending@) },
                trial as int,
                count as int,
                direction,
            ) == run_trials(
                bits,
                set,
                Gathering { states: old(states)@, words: fresh_words((end - start) as nat) },
                0,
                count as int,
                direction,
            ),
        decreases count - trial,
    {
        let ghost before = Gathering { states: states@, words: pending_views(pending@) };
        let mut segment: usize = 0;
        while segment < count
            invariant
                segment <= count,
                trial < count,
                count == states@.len(),
                count == old(states)@.len(),
                bits == bits_of(payload@),
                payload@.len() * 8 <= usize::MAX - 8,
                start <= end <= words@.len(),
                set == words@.subrange(start as int, end as int),
                states_within(states@, payload@.len() * 8),
                words_lack_bits(pending_views(pending@), set),
                waiting_bits(Gathering { states: states@, words: pending_views(pending@) }) <= payload@.len() * 8,
                feed_segments(
                    bits,
                    set,
                    Gathering { states: states@, words: pending_views(pending@) },
                    trial as int,
                    segment as int,
                    direction,
                ) == feed_segments(bits, set, before, trial as int, 0, direction),
                run_trials(bits, set, before, trial as int, count as int, direction) == run_trials(
                    bits,
                    set,
                    Gathering { states: old(states)@, words: fresh_words((end - start) as nat) },
                    0,
                    count as int,
                    direction,
                ),
            decreases count - segment,
        {
            let index: usize = if segment >= trial {
                segment - trial
            } else {
                segment + (count - trial)
            };
            proof {
                if segment >= trial {
                    vstd::arithmetic::div_mod::lemma_mod_add_multiples_vanish(segment - trial, count as int);
                    vstd::arithmetic::div_mod::lemma_small_mod((segment - trial) as nat, count as nat);
                    assert((segment + count - trial) % (count as int) == index);
                } else {
                    vstd::arithmetic::div_mod::lemma_small_mod((segment + count - trial) as nat, count as nat);
                }
            }
            if index < pending.len() {
                let codebook: u8 = words[start + index].codebook;
                assert(set[index as int] == words@[start + index]);
                match feed_pair(payload, states, &mut pending, segment, index, codebook, direction, Ghost(set)) {
                    Ok(()) => {},
                    Err(error) => {
                        return Err(error);
                    },
                }
            }
            segment = segment + 1;
        }
        trial = trial + 1;
    }
    proof {
        lemma_total_bound(gathered_counts(pending_views(pending@)), 0);
    }
    Ok(pending)
}

proof fn lemma_fresh_total(count: nat)
    ensures
        total_of(gathered_counts(fresh_words(count))) == 0,
    decreases count,
{
    if count > 0 {
        let shorter = (count - 1) as nat;
        lemma_fresh_total(shorter);
        assert(gathered_counts(fresh_words(count)).drop_last() =~= gathered_counts(fresh_words(shorter)));
        assert(gathered_counts(fresh_words(count)).last() == 0);
    } else {
        assert(gathered_counts(fresh_words(count)) =~= Seq::<int>::empty());
    }
}

/// Appends the codewords of a set to those decoded before.
fn collect_codewords(
    words: &Vec<CodewordDescriptor>,
    start: usize,
    end: usize,
    pending: &Vec<PendingCodeword>,
    decoded: &mut Vec<HcrDecodedCodeword>,
) -> (result: Result<(), HcrError>)
    requires
        start <= end <= words@.len(),
        pending@.len() == end - start,
    ensures
        match collect_set(
            words@.subrange(start as int, end as int),
            pending_views(pending@),
            0,
            codeword_views(old(decoded)@),
        ) {
            Ok(longer) => result is Ok && codeword_views(final(decoded)@) == longer,
            Err(error) => result == Err::<(), HcrError>(error),
        },
{
    let ghost set = words@.subrange(start as int, end as int);
    let mut index: usize = 0;
    while index < pending.len()
        invariant
            index <= pending@.len(),
            start <= end <= words@.len(),
            pending@.len() == end - start,
            set == words@.subrange(start as int, end as int),
            collect_set(set, pending_views(pending@), index as int, codeword_views(decoded@)) == collect_set(
                set,
                pending_views(pending@),
                0,
                codeword_views(old(decoded)@),
            ),
        decreases pending@.len() - index,
    {
        let descriptor = words[start + index];
        assert(set[index as int] == descriptor);
        assert(pending_views(pending@)[index as int] == pending@[index as int]@);
        if !pending[index].complete {
            return Err(
                HcrError::IncompleteCodeword {
                    section: descriptor.section_index,
                    codeword: descriptor.codeword_index,
                    accumulated_bits: pending[index].bits.len(),
                },
            );
        }
        let coefficients: Vec<i32> = pending[index].coefficients.clone();
        assert(coefficients@ =~= pending@[index as int].coefficients@);
        let word = HcrDecodedCodeword {
            section_index: descriptor.section_index,
            codeword_index: descriptor.codeword_index,
            coefficients,
        };
        let ghost before = codeword_views(decoded@);
        let ghost seen = word@;
        decoded.push(word);
        assert(codeword_views(decoded@) =~= before.push(seen));
        index = index + 1;
    }
    Ok(())
}

/// Puts decoded codewords in order of their sections.
fn arrange(decoded: &Vec<HcrDecodedCodeword>, sections: usize) -> (result: Vec<HcrDecodedCodeword>)
    ensures
        codeword_views(result@) == by_section(codeword_views(decoded@), sections as int),
{
    let ghost views = codeword_views(decoded@);
    let mut result: Vec<HcrDecodedCodeword> = Vec::new();
    let mut section: usize = 0;
    assert(codeword_views(result@) =~= by_section(views, 0));
    while section < sections
        invariant
            section <= sections,
            views == codeword_views(decoded@),
            codeword_views(result@) == by_section(views, section as int),
        decreases sections - section,
    {
        let ghost before = codeword_views(result@);
        let mut index: usize = 0;
        assert(before + of_section(views, section as int, 0) =~= before);
        while index < decoded.len()
            invariant
                index <= decoded@.len(),
                views == codeword_views(decoded@),
                codeword_views(result@) == before + of_section(views, section as int, index as int),
            decreases decoded@.len() - index,
        {
            assert(views[index as int] == decoded@[index as int]@);
            if decoded[index].section_index == section {
                let ghost so_far = codeword_views(result@);
                let word = decoded[index].clone();
                let ghost seen = word@;
                result.push(word);
                assert(codeword_views(result@) =~= so_far.push(seen));
            }
            index = index + 1;
            assert(codeword_views(result@) =~= before + of_section(views, section as int, index as int));
        }
        section = section + 1;
    }
    result
}

/// Disjoint segments hold no more bits than the payload.
proof fn lemma_segments_total(segments: Seq<HcrSegment>, count: int, total: usize)
    requires
        0 <= count <= segments.len(),
        forall|i: int| 0 <= i < segments.len() ==> (#[trigger] segments[i]).left_bit <= segments[i].right_bit < total,
        forall|i: int, j: int|
            0 <= i < j < segments.len() ==> (#[trigger] segments[i]).right_bit < (#[trigger] segments[j]).left_bit,
    ensures
        count > 0 ==> total_of(remaining_counts(whole_segments(segments)).take(count)) <= segments[count - 1].right_bit + 1,
        count == 0 ==> total_of(remaining_counts(whole_segments(segments)).take(count)) == 0,
    decreases count,
{
    let counts = remaining_counts(whole_segments(segments));
    if count > 0 {
        lemma_segments_total(segments, count - 1, total);
        assert(counts.take(count).drop_last() =~= counts.take(count - 1));
        assert(counts.take(count).last() == segments[count - 1].right_bit - segments[count - 1].left_bit + 1);
        if count > 1 {
            assert(segments[count - 2].right_bit < segments[count - 1].left_bit);
        }
    } else {
        assert(counts.take(0) =~= Seq::<int>::empty());
    }
}

/// Decodes all codewords of a reordered payload, those included that go on
/// across several segments, and gives them in order of their sections.
pub fn decode_reordered_codewords(payload: &[u8], side_info: &HcrSideInfo, sections: &[HcrSection]) -> (result: Result<
    Vec<HcrDecodedCodeword>,
    HcrError,
>)
    requires
        payload@.len() * 8 <= usize::MAX - 8,
    ensures
        match reordered_codewords(bits_of(payload@), *side_info, sections@) {
            Ok(words) => result matches Ok(list) && codeword_views(list@) == words,
            Err(error) => result matches Err(found) && found == error,
        },
{
    if payload.len() * 8 < side_info.reordered_spectral_bits {
        return Err(
            HcrError::PayloadTooShort {
                needed_bits: side_info.reordered_spectral_bits,
                available_bits: payload.len() * 8,
            },
        );
    }
    let segments: Vec<HcrSegment> = match prepare_segmentation_grid(side_info, sections) {
        Ok(segments) => segments,
        Err(error) => {
            return Err(error);
        },
    };
    if segments.len() == 0 {
        let empty: Vec<HcrDecodedCodeword> = Vec::new();
        assert(codeword_views(empty@) =~= Seq::<Codeword>::empty());
        return Ok(empty);
    }
    proof {
        lemma_strict_is_enough(sections@, 0);
    }
    let words: Vec<CodewordDescriptor> = match sorted_codeword_descriptors(sections) {
        Ok(words) => words,
        Err(error) => {
            return Err(error);
        },
    };
    let ghost bits = bits_of(payload@);
    let ghost total = side_info.reordered_spectral_bits;
    proof {
        assert(sections@.len() == sections.len());
        lemma_priority_codebooks(sections@);
        lemma_segmentation(words@, total, side_info.longest_codeword_bits);
        assert forall|i: int| 0 <= i < words@.len() implies codebook_priority((#[trigger] words@[i]).codebook) > 0 by {
            assert(word_has_codebook(sections@, codewords_by_priority(sections@)[i]));
        }
        assert forall|i: int| 0 <= i < segments@.len() implies (#[trigger] segments@[i]).left_bit
            <= segments@[i].right_bit < total by {
            assert(segment_of(segments@[i], words@[i], total));
        }
        lemma_segments_total(segments@, segments@.len() as int, total);
        assert(remaining_counts(whole_segments(segments@)).take(segments@.len() as int) =~= remaining_counts(
            whole_segments(segments@),
        ));
    }
    let mut states: Vec<HcrSegmentState> = Vec::new();
    let mut index: usize = 0;
    while index < segments.len()
        invariant
            index <= segments@.len(),
            total <= payload@.len() * 8 <= usize::MAX - 8,
            forall|i: int| 0 <= i < segments@.len() ==> (#[trigger] segments@[i]).left_bit <= segments@[i].right_bit < total,
            states@ =~= whole_segments(segments@).take(index as int),
            states_within(states@, payload@.len() * 8),
        decreases segments@.len() - index,
    {
        let segment = segments[index];
        states.push(HcrSegmentState::from_segment(segment));
        index = index + 1;
    }
    assert(states@ =~= whole_segments(segments@));
    let ghost whole = states@;
    let mut decoded: Vec<HcrDecodedCodeword> = Vec::new();
    assert(codeword_views(decoded@) =~= Seq::<Codeword>::empty());
    let mut index: usize = 0;
    while index < states.len()
        invariant
            index <= states@.len(),
            states@.len() == segments@.len(),
            segments@.len() <= words@.len(),
            payload@.len() * 8 <= usize::MAX - 8,
            bits == bits_of(payload@),
            states_within(states@, payload@.len() * 8),
            total_of(remaining_counts(states@)) <= payload@.len() * 8,
            segments@.len() > 0,
            total <= payload@.len() * 8,
            total == side_info.reordered_spectral_bits,
            first_section_error(sections@, 0, true) is None,
            words@ == codewords_by_priority(sections@),
            segments@ == segmentation(words@, total, side_info.longest_codeword_bits).segments,
            whole == whole_segments(segments@),
            decode_first(bits, words@, states@, index as int, codeword_views(decoded@)) == decode_first(
                bits,
                words@,
                whole,
                0,
                Seq::empty(),
            ),
        decreases states@.len() - index,
    {
        let descriptor = words[index];
        let ghost states0 = states@;
        let mut state: HcrSegmentState = states[index];
        assert(states@[index as int].well_formed());
        match decode_segment_codeword(payload, &mut state, descriptor.codebook, HcrReadDirection::LeftToRight) {
            Ok((coefficients, _)) => {
                states.set(index, state);
                let word = HcrDecodedCodeword {
                    section_index: descriptor.section_index,
                    codeword_index: descriptor.codeword_index,
                    coefficients,
                };
                let ghost before = codeword_views(decoded@);
                let ghost seen = word@;
                decoded.push(word);
                assert(codeword_views(decoded@) =~= before.push(seen));
                proof {
                    lemma_total_update(remaining_counts(states0), index as int, state.remaining_bits as int);
                    assert(remaining_counts(states@) =~= remaining_counts(states0).update(
                        index as int,
                        state.remaining_bits as int,
                    ));
                }
            },
            Err(error) => {
                return Err(error);
            },
        }
        index = index + 1;
    }
    let ghost first_states = states@;
    let ghost first_decoded = codeword_views(decoded@);
    let count: usize = states.len();
    let mut direction = HcrReadDirection::RightToLeft;
    let mut start: usize = count;
    while start < words.len()
        invariant
            count <= start <= words@.len(),
            count == states@.len(),
            count == segments@.len(),
            count > 0,
            payload@.len() * 8 <= usize::MAX - 8,
            bits == bits_of(payload@),
            states_within(states@, payload@.len() * 8),
            total_of(remaining_counts(states@)) <= payload@.len() * 8,
            forall|i: int| 0 <= i < words@.len() ==> codebook_priority((#[trigger] words@[i]).codebook) > 0,
            total <= payload@.len() * 8,
            total == side_info.reordered_spectral_bits,
            first_section_error(sections@, 0, true) is None,
            words@ == codewords_by_priority(sections@),
            segments@ == segmentation(words@, total, side_info.longest_codeword_bits).segments,
            decode_first(bits, words@, whole_segments(segments@), 0, Seq::empty()) == Ok::<
                (Seq<HcrSegmentState>, Seq<Codeword>),
                HcrError,
            >((first_states, first_decoded)),
            decode_sets(bits, words@, start as int, states@, direction, codeword_views(decoded@)) == decode_sets(
                bits,
                words@,
                count as int,
                first_states,
                HcrReadDirection::RightToLeft,
                first_decoded,
            ),
        decreases words@.len() - start,
    {
        let end: usize = if count <= words.len() - start {
            start + count
        } else {
            words.len()
        };
        let pending: Vec<PendingCodeword> = match gather_set(payload, &mut states, &words, start, end, direction) {
            Ok(pending) => pending,
            Err(error) => {
                return Err(error);
            },
        };
        match collect_codewords(&words, start, end, &pending, &mut decoded) {
            Ok(()) => {},
            Err(error) => {
                return Err(error);
            },
        }
        direction = match direction {
            HcrReadDirection::LeftToRight => HcrReadDirection::RightToLeft,
            HcrReadDirection::RightToLeft => HcrReadDirection::LeftToRight,
        };
        start = end;
    }
    Ok(arrange(&decoded, sections.len()))
}

/// Sections that pass the strict check pass the other one.
proof fn lemma_strict_is_enough(sections: Seq<HcrSection>, index: int)
    requires
        first_section_error(sections, index, true) is None,
    ensures
        first_section_error(sections, index, false) is None,
    decreases sections.len() - index,
{
    if 0 <= index < sections.len() {
        lemma_strict_is_enough(sections, index + 1);
    }
}

} // verus!
