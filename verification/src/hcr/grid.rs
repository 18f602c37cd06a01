//! The segments of a reordered payload.

use vstd::prelude::*;

use super::sections::HcrSection;
use super::side_info::{HcrError, HcrSideInfo};

verus! {

/// The longest codeword of a codebook, signs and escapes counted.
pub open spec fn codeword_limit(codebook: u8) -> usize {
    if codebook == 1 || codebook == 6 {
        11
    } else if codebook == 2 {
        9
    } else if codebook == 3 {
        20
    } else if codebook == 4 {
        16
    } else if codebook == 5 {
        13
    } else if codebook == 7 || codebook == 10 || codebook == 16 {
        14
    } else if codebook == 8 {
        12
    } else if codebook == 9 || codebook == 17 {
        17
    } else if codebook == 11 {
        49
    } else if 18 <= codebook <= 19 {
        21
    } else if 20 <= codebook <= 21 {
        25
    } else if 22 <= codebook <= 25 {
        29
    } else if 26 <= codebook <= 28 {
        33
    } else if 29 <= codebook <= 30 {
        37
    } else if codebook == 31 {
        41
    } else {
        0
    }
}

/// The number of lines that a codeword of a codebook covers.
pub open spec fn codeword_lines(codebook: u8) -> usize {
    if 1 <= codebook <= 4 {
        4
    } else if codebook == 12 {
        1
    } else {
        2
    }
}

/// The priority of a codebook's codewords; zero where it has none.
pub open spec fn codebook_priority(codebook: u8) -> usize {
    if 1 <= codebook <= 2 {
        1
    } else if 3 <= codebook <= 4 {
        2
    } else if 5 <= codebook <= 6 {
        3
    } else if 7 <= codebook <= 8 {
        4
    } else if 9 <= codebook <= 10 {
        5
    } else if codebook == 11 {
        22
    } else if 16 <= codebook <= 31 {
        (codebook - 10) as usize
    } else {
        0
    }
}

/// The longest codeword of a codebook.
pub fn max_codeword_bits(codebook: u8) -> (bits: usize)
    ensures
        bits == codeword_limit(codebook),
{
    match codebook {
        1 | 6 => 11,
        2 => 9,
        3 => 20,
        4 => 16,
        5 => 13,
        7 | 10 | 16 => 14,
        8 => 12,
        9 | 17 => 17,
        11 => 49,
        18 | 19 => 21,
        20 | 21 => 25,
        22 | 23 | 24 | 25 => 29,
        26 | 27 | 28 => 33,
        29 | 30 => 37,
        31 => 41,
        _ => 0,
    }
}

/// The number of lines that a codeword of a codebook covers.
pub fn codebook_dimension(codebook: u8) -> (lines: usize)
    ensures
        lines == codeword_lines(codebook),
        1 <= lines <= 4,
{
    match codebook {
        1 | 2 | 3 | 4 => 4,
        12 => 1,
        _ => 2,
    }
}

/// The priority of a codebook's codewords.
pub fn priority_of(codebook: u8) -> (priority: usize)
    ensures
        priority == codebook_priority(codebook),
{
    match codebook {
        1 | 2 => 1,
        3 | 4 => 2,
        5 | 6 => 3,
        7 | 8 => 4,
        9 | 10 => 5,
        11 => 22,
        _ => if 16 <= codebook && codebook <= 31 {
            (codebook - 10) as usize
        } else {
            0
        },
    }
}

/// One codeword of a section.
#[derive(Debug, Clone, Copy, PartialEq, Eq, Structural)]
pub struct CodewordDescriptor {
    pub section_index: usize,
    pub codeword_index: usize,
    pub codebook: u8,
}

/// A stretch of the payload that starts with a priority codeword.
#[derive(Debug, Clone, Copy, PartialEq, Eq, Structural)]
pub struct HcrSegment {
    pub codebook: u8,
    pub section_index: usize,
    pub codeword_index: usize,
    pub left_bit: usize,
    pub right_bit: usize,
}

impl HcrSegment {
    /// The number of bits in this segment.
    pub fn width(self) -> (bits: usize)
        requires
            self.left_bit <= self.right_bit,
            self.right_bit - self.left_bit < usize::MAX,
        ensures
            bits == self.right_bit - self.left_bit + 1,
    {
        self.right_bit - self.left_bit + 1
    }
}

/// What is wrong with a section: a codebook that there is not, or lines that
/// are no whole number of codewords. Sections without codewords may have any
/// number of lines unless `strict`.
pub open spec fn section_error(section: HcrSection, index: int, strict: bool) -> Option<HcrError> {
    if section.codebook >= 32 {
        Some(HcrError::InvalidCodebook(section.codebook))
    } else if (strict || codebook_priority(section.codebook) != 0) && (section.spectral_lines == 0
        || section.spectral_lines % codeword_lines(section.codebook) != 0) {
        Some(
            HcrError::InvalidSectionLineCount {
                section: index as usize,
                spectral_lines: section.spectral_lines,
                dimension: codeword_lines(section.codebook),
            },
        )
    } else {
        None
    }
}

/// The error of the first section from `index` on that has one.
pub open spec fn first_section_error(sections: Seq<HcrSection>, index: int, strict: bool) -> Option<HcrError>
    decreases sections.len() - index,
{
    if index < 0 || index >= sections.len() {
        None
    } else {
        match section_error(sections[index], index, strict) {
            Some(error) => Some(error),
            None => first_section_error(sections, index + 1, strict),
        }
    }
}

/// The indices below `count` of the sections of one priority, in order.
pub open spec fn sections_of_priority(sections: Seq<HcrSection>, priority: int, count: int) -> Seq<usize>
    decreases count,
{
    if count <= 0 {
        Seq::empty()
    } else if codebook_priority(sections[count - 1].codebook) == priority {
        sections_of_priority(sections, priority, count - 1).push((count - 1) as usize)
    } else {
        sections_of_priority(sections, priority, count - 1)
    }
}

/// The sections of at most the given priority that hold codewords: higher
/// priorities first, and in order of transmission within a priority.
pub open spec fn priority_order(sections: Seq<HcrSection>, priority: int) -> Seq<usize>
    decreases priority,
{
    if priority <= 0 {
        Seq::empty()
    } else {
        sections_of_priority(sections, priority, sections.len() as int) + priority_order(sections, priority - 1)
    }
}

/// The number of codewords of a section.
pub open spec fn codeword_count(section: HcrSection) -> int {
    (section.spectral_lines / codeword_lines(section.codebook)) as int
}

/// The first `count` codewords of a section.
pub open spec fn section_codewords(sections: Seq<HcrSection>, index: usize, count: int) -> Seq<CodewordDescriptor> {
    Seq::new(
        count as nat,
        |c: int|
            CodewordDescriptor {
                section_index: index,
                codeword_index: c as usize,
                codebook: sections[index as int].codebook,
            },
    )
}

/// The codewords of a sequence of sections.
pub open spec fn codewords_in(sections: Seq<HcrSection>, order: Seq<usize>) -> Seq<CodewordDescriptor>
    decreases order.len(),
{
    if order.len() == 0 {
        Seq::empty()
    } else {
        codewords_in(sections, order.drop_last()) + section_codewords(
            sections,
            order.last(),
            codeword_count(sections[order.last() as int]),
        )
    }
}

/// All codewords, in order of priority.
pub open spec fn codewords_by_priority(sections: Seq<HcrSection>) -> Seq<CodewordDescriptor> {
    codewords_in(sections, priority_order(sections, 22))
}

/// The segmentation after some of the codewords.
pub struct Segmentation {
    pub segments: Seq<HcrSegment>,
    pub bit: int,
    pub full: bool,
}

/// The width of a codeword's segment.
pub open spec fn segment_width(codebook: u8, longest: usize) -> usize {
    if codeword_limit(codebook) <= longest {
        codeword_limit(codebook)
    } else {
        longest
    }
}

/// Places the segment of one more codeword. The first that does not fit ends
/// the segmentation, and the last segment takes what is left.
pub open spec fn place_codeword(
    before: Segmentation,
    word: CodewordDescriptor,
    total: usize,
    longest: usize,
) -> Segmentation {
    let width = segment_width(word.codebook, longest);
    if before.full || width == 0 {
        before
    } else if before.bit + width <= total {
        Segmentation {
            segments: before.segments.push(
                HcrSegment {
                    codebook: word.codebook,
                    section_index: word.section_index,
                    codeword_index: word.codeword_index,
                    left_bit: before.bit as usize,
                    right_bit: (before.bit + width - 1) as usize,
                },
            ),
            bit: before.bit + width,
            full: false,
        }
    } else if before.segments.len() == 0 {
        Segmentation { full: true, ..before }
    } else {
        Segmentation {
            segments: before.segments.update(
                before.segments.len() - 1,
                HcrSegment { right_bit: (total - 1) as usize, ..before.segments.last() },
            ),
            full: true,
            ..before
        }
    }
}

/// The segmentation of a payload of `total` bits for a sequence of codewords.
pub open spec fn segmentation(words: Seq<CodewordDescriptor>, total: usize, longest: usize) -> Segmentation
    decreases words.len(),
{
    if words.len() == 0 {
        Segmentation { segments: Seq::empty(), bit: 0, full: false }
    } else {
        place_codeword(segmentation(words.drop_last(), total, longest), words.last(), total, longest)
    }
}

/// Finds the first section with an error.
fn check_sections(sections: &[HcrSection], strict: bool) -> (result: Option<HcrError>)
    ensures
        result == first_section_error(sections@, 0, strict),
{
    let mut index: usize = 0;
    while index < sections.len()
        invariant
            index <= sections@.len(),
            first_section_error(sections@, index as int, strict) == first_section_error(sections@, 0, strict),
        decreases sections@.len() - index,
    {
        let section = sections[index];
        if section.codebook >= 32 {
            return Some(HcrError::InvalidCodebook(section.codebook));
        }
        let dimension: usize = codebook_dimension(section.codebook);
        if (strict || priority_of(section.codebook) != 0) && (section.spectral_lines == 0 || section.spectral_lines
            % dimension != 0) {
            return Some(
                HcrError::InvalidSectionLineCount { section: index, spectral_lines: section.spectral_lines, dimension },
            );
        }
        index = index + 1;
    }
    None
}

/// The sections that hold codewords, in order of priority.
fn section_order(sections: &[HcrSection]) -> (order: Vec<usize>)
    ensures
        order@ == priority_order(sections@, 22),
        forall|i: int|
            0 <= i < order@.len() ==> #[trigger] order@[i] < sections@.len() && codebook_priority(
                sections@[order@[i] as int].codebook,
            ) > 0,
{
    let mut order: Vec<usize> = Vec::new();
    let mut priority: usize = 22;
    assert(order@ + priority_order(sections@, 22) =~= priority_order(sections@, 22));
    while priority > 0
        invariant
            priority <= 22,
            order@ + priority_order(sections@, priority as int) == priority_order(sections@, 22),
            forall|i: int|
                0 <= i < order@.len() ==> #[trigger] order@[i] < sections@.len() && codebook_priority(
                    sections@[order@[i] as int].codebook,
                ) > 0,
        decreases priority,
    {
        let ghost before = order@;
        let mut index: usize = 0;
        assert(before + sections_of_priority(sections@, priority as int, 0) =~= before);
        while index < sections.len()
            invariant
                index <= sections@.len(),
                0 < priority,
                order@ == before + sections_of_priority(sections@, priority as int, index as int),
                forall|i: int|
                    0 <= i < order@.len() ==> #[trigger] order@[i] < sections@.len() && codebook_priority(
                        sections@[order@[i] as int].codebook,
                    ) > 0,
            decreases sections@.len() - index,
        {
            if priority_of(sections[index].codebook) == priority {
                order.push(index);
            }
            index = index + 1;
            assert(order@ =~= before + sections_of_priority(sections@, priority as int, index as int));
        }
        assert(order@ + priority_order(sections@, priority - 1) =~= before + priority_order(
            sections@,
            priority as int,
        ));
        priority = priority - 1;
    }
    assert(order@ + priority_order(sections@, 0) =~= order@);
    order
}

/// All codewords of the sections, in order of priority.
pub fn sorted_codeword_descriptors(sections: &[HcrSection]) -> (result: Result<Vec<CodewordDescriptor>, HcrError>)
    ensures
        match first_section_error(sections@, 0, false) {
            Some(error) => result == Err::<Vec<CodewordDescriptor>, HcrError>(error),
            None => result matches Ok(words) && words@ == codewords_by_priority(sections@),
        },
{
    match check_sections(sections, false) {
        Some(error) => {
            return Err(error);
        },
        None => {},
    }
    let order: Vec<usize> = section_order(sections);
    let mut words: Vec<CodewordDescriptor> = Vec::new();
    let mut position: usize = 0;
    assert(order@.take(0) =~= Seq::<usize>::empty());
    while position < order.len()
        invariant
            position <= order@.len(),
            forall|i: int| 0 <= i < order@.len() ==> #[trigger] order@[i] < sections@.len(),
            words@ == codewords_in(sections@, order@.take(position as int)),
        decreases order@.len() - position,
    {
        let section_index: usize = order[position];
        let section = sections[section_index];
        let count: usize = section.spectral_lines / codebook_dimension(section.codebook);
        let ghost before = words@;
        let mut codeword_index: usize = 0;
        assert(before + section_codewords(sections@, section_index, 0) =~= before);
        while codeword_index < count
            invariant
                codeword_index <= count,
                section_index < sections@.len(),
                section == sections@[section_index as int],
                words@ == before + section_codewords(sections@, section_index, codeword_index as int),
            decreases count - codeword_index,
        {
            words.push(CodewordDescriptor { section_index, codeword_index, codebook: section.codebook });
            codeword_index = codeword_index + 1;
            assert(words@ =~= before + section_codewords(sections@, section_index, codeword_index as int));
        }
        assert(order@.take(position + 1).drop_last() =~= order@.take(position as int));
        assert(order@.take(position + 1).last() == section_index);
        position = position + 1;
    }
    assert(order@.take(position as int) =~= order@);
    Ok(words)
}

/// A full segmentation stays as it is.
proof fn lemma_full_stays(words: Seq<CodewordDescriptor>, more: Seq<CodewordDescriptor>, total: usize, longest: usize)
    requires
        segmentation(words, total, longest).full,
    ensures
        segmentation(words + more, total, longest) == segmentation(words, total, longest),
    decreases more.len(),
{
    if more.len() == 0 {
        assert(words + more =~= words);
    } else {
        lemma_full_stays(words, more.drop_last(), total, longest);
        assert((words + more).drop_last() =~= words + more.drop_last());
    }
}

/// Codewords of no width leave a segmentation as it is.
proof fn lemma_zero_width(words: Seq<CodewordDescriptor>, more: Seq<CodewordDescriptor>, total: usize, longest: usize)
    requires
        forall|i: int| 0 <= i < more.len() ==> segment_width((#[trigger] more[i]).codebook, longest) == 0,
    ensures
        segmentation(words + more, total, longest) == segmentation(words, total, longest),
    decreases more.len(),
{
    if more.len() == 0 {
        assert(words + more =~= words);
    } else {
        lemma_zero_width(words, more.drop_last(), total, longest);
        assert((words + more).drop_last() =~= words + more.drop_last());
    }
}

/// The codewords of a prefix of the sections, and of part of the next section,
/// are a prefix of all codewords.
proof fn lemma_codewords_prefix(sections: Seq<HcrSection>, order: Seq<usize>, position: int, count: int) -> (rest: Seq<
    CodewordDescriptor,
>)
    requires
        0 <= position < order.len(),
        0 <= count <= codeword_count(sections[order[position] as int]),
    ensures
        codewords_in(sections, order) == codewords_in(sections, order.take(position)) + section_codewords(
            sections,
            order[position],
            count,
        ) + rest,
    decreases order.len(),
{
    if position == order.len() - 1 {
        let all = codeword_count(sections[order[position] as int]);
        let whole = section_codewords(sections, order[position], all);
        let rest = whole.skip(count);
        assert(order.take(position) =~= order.drop_last());
        assert(whole =~= section_codewords(sections, order[position], count) + rest);
        assert(codewords_in(sections, order) =~= codewords_in(sections, order.take(position)) + section_codewords(
            sections,
            order[position],
            count,
        ) + rest);
        rest
    } else {
        let shorter = order.drop_last();
        let inner = lemma_codewords_prefix(sections, shorter, position, count);
        let last = section_codewords(sections, order.last(), codeword_count(sections[order.last() as int]));
        assert(shorter.take(position) =~= order.take(position));
        assert(codewords_in(sections, order) =~= codewords_in(sections, order.take(position)) + section_codewords(
            sections,
            order[position],
            count,
        ) + (inner + last));
        inner + last
    }
}

/// Builds the segments of a reordered payload: one for each codeword in order of
/// priority, as long as they fit.
pub fn prepare_segmentation_grid(side_info: &HcrSideInfo, sections: &[HcrSection]) -> (result: Result<
    Vec<HcrSegment>,
    HcrError,
>)
    ensures
        match first_section_error(sections@, 0, true) {
            Some(error) => result == Err::<Vec<HcrSegment>, HcrError>(error),
            None => result matches Ok(segments) && segments@ == segmentation(
                codewords_by_priority(sections@),
                side_info.reordered_spectral_bits,
                side_info.longest_codeword_bits,
            ).segments,
        },
{
    match check_sections(sections, true) {
        Some(error) => {
            return Err(error);
        },
        None => {},
    }
    let total: usize = side_info.reordered_spectral_bits;
    let longest: usize = side_info.longest_codeword_bits;
    let order: Vec<usize> = section_order(sections);
    let mut segments: Vec<HcrSegment> = Vec::new();
    let mut bit: usize = 0;
    let mut position: usize = 0;
    assert(order@.take(0) =~= Seq::<usize>::empty());
    while position < order.len()
        invariant
            position <= order@.len(),
            order@ == priority_order(sections@, 22),
            forall|i: int|
                0 <= i < order@.len() ==> #[trigger] order@[i] < sections@.len() && codebook_priority(
                    sections@[order@[i] as int].codebook,
                ) > 0,
            bit <= total,
            segmentation(codewords_in(sections@, order@.take(position as int)), total, longest) == (Segmentation {
                segments: segments@,
                bit: bit as int,
                full: false,
            }),
            total == side_info.reordered_spectral_bits,
            longest == side_info.longest_codeword_bits,
            first_section_error(sections@, 0, true) is None,
        decreases order@.len() - position,
    {
        let section_index: usize = order[position];
        let section = sections[section_index];
        let limit: usize = max_codeword_bits(section.codebook);
        let width: usize = if limit <= longest {
            limit
        } else {
            longest
        };
        let count: usize = section.spectral_lines / codebook_dimension(section.codebook);
        let ghost before = codewords_in(sections@, order@.take(position as int));
        proof {
            assert(order@.take(position + 1).drop_last() =~= order@.take(position as int));
            assert(order@.take(position + 1).last() == section_index);
            assert(before + section_codewords(sections@, section_index, 0) =~= before);
            if width == 0 {
                lemma_zero_width(before, section_codewords(sections@, section_index, count as int), total, longest);
            }
        }
        if width != 0 {
            let mut codeword_index: usize = 0;
            while codeword_index < count
                invariant
                    codeword_index <= count,
                    count == codeword_count(section),
                    section_index < sections@.len(),
                    section == sections@[section_index as int],
                    position < order@.len(),
                    section_index == order@[position as int],
                    order@ == priority_order(sections@, 22),
                    before == codewords_in(sections@, order@.take(position as int)),
                    width == segment_width(section.codebook, longest),
                    width > 0,
                    bit <= total,
                    segmentation(
                        before + section_codewords(sections@, section_index, codeword_index as int),
                        total,
                        longest,
                    ) == (Segmentation { segments: segments@, bit: bit as int, full: false }),
                    total == side_info.reordered_spectral_bits,
                    longest == side_info.longest_codeword_bits,
                    first_section_error(sections@, 0, true) is None,
                decreases count - codeword_index,
            {
                let ghost seen = before + section_codewords(sections@, section_index, codeword_index as int);
                let ghost more = before + section_codewords(sections@, section_index, codeword_index + 1);
                assert(more.drop_last() =~= seen);
                assert(more.last() == (CodewordDescriptor {
                    section_index,
                    codeword_index,
                    codebook: section.codebook,
                }));
                if width <= total - bit {
                    segments.push(
                        HcrSegment {
                            codebook: section.codebook,
                            section_index,
                            codeword_index,
                            left_bit: bit,
                            right_bit: bit + (width - 1),
                        },
                    );
                    bit = bit + width;
                } else {
                    proof {
                        let rest = lemma_codewords_prefix(sections@, order@, position as int, codeword_index + 1);
                        lemma_segmentation_bit(seen, total, longest);
                        assert(segmentation(more, total, longest).full);
                        lemma_full_stays(more, rest, total, longest);
                    }
                    if segments.len() > 0 {
                        let last: usize = segments.len() - 1;
                        let mut segment = segments[last];
                        segment.right_bit = total - 1;
                        segments.set(last, segment);
                    }
                    return Ok(segments);
                }
                codeword_index = codeword_index + 1;
            }
        }
        position = position + 1;
    }
    assert(order@.take(position as int) =~= order@);
    Ok(segments)
}

/// A segmentation uses at most the bits that there are, and some of them where
/// it has segments.
proof fn lemma_segmentation_bit(words: Seq<CodewordDescriptor>, total: usize, longest: usize)
    ensures
        0 <= segmentation(words, total, longest).bit <= total,
        segmentation(words, total, longest).segments.len() > 0 ==> segmentation(words, total, longest).bit > 0,
    decreases words.len(),
{
    if words.len() > 0 {
        lemma_segmentation_bit(words.drop_last(), total, longest);
    }
}

/// Whether a segment is the place of a codeword within the payload.
pub open spec fn segment_of(segment: HcrSegment, word: CodewordDescriptor, total: usize) -> bool {
    &&& segment.codebook == word.codebook
    &&& segment.section_index == word.section_index
    &&& segment.codeword_index == word.codeword_index
    &&& segment.left_bit <= segment.right_bit < total
}

/// The segments lie within the payload, one behind the other, and belong to the
/// first codewords in order of priority.
pub proof fn lemma_segmentation(words: Seq<CodewordDescriptor>, total: usize, longest: usize)
    requires
        longest > 0 ==> forall|i: int| 0 <= i < words.len() ==> codeword_limit((#[trigger] words[i]).codebook) > 0,
    ensures
        segmentation(words, total, longest).segments.len() <= words.len(),
        !segmentation(words, total, longest).full && longest > 0 ==> segmentation(words, total, longest).segments.len()
            == words.len(),
        forall|i: int|
            0 <= i < segmentation(words, total, longest).segments.len() ==> segment_of(
                #[trigger] segmentation(words, total, longest).segments[i],
                words[i],
                total,
            ),
        forall|i: int, j: int|
            0 <= i < j < segmentation(words, total, longest).segments.len() ==> (#[trigger] segmentation(
                words,
                total,
                longest,
            ).segments[i]).right_bit < (#[trigger] segmentation(words, total, longest).segments[j]).left_bit,
        !segmentation(words, total, longest).full ==> forall|i: int|
            0 <= i < segmentation(words, total, longest).segments.len() ==> (#[trigger] segmentation(
                words,
                total,
                longest,
            ).segments[i]).right_bit < segmentation(words, total, longest).bit,
    decreases words.len(),
{
    if words.len() > 0 {
        lemma_segmentation(words.drop_last(), total, longest);
        lemma_segmentation_bit(words.drop_last(), total, longest);
        let before = segmentation(words.drop_last(), total, longest);
        let after = segmentation(words, total, longest);
        assert forall|i: int| 0 <= i < after.segments.len() implies segment_of(
            #[trigger] after.segments[i],
            words[i],
            total,
        ) by {
            if i < before.segments.len() {
                assert(segment_of(before.segments[i], words.drop_last()[i], total));
            }
        }
        assert forall|i: int, j: int| 0 <= i < j < after.segments.len() implies (#[trigger] after.segments[i]).right_bit
            < (#[trigger] after.segments[j]).left_bit by {
            if j < before.segments.len() {
                assert(before.segments[i].right_bit < before.segments[j].left_bit);
            } else {
                assert(before.segments[i].right_bit < before.bit);
            }
        }
    }
}

/// Whether a codeword belongs to a section with codewords.
pub open spec fn word_has_codebook(sections: Seq<HcrSection>, word: CodewordDescriptor) -> bool {
    &&& word.section_index < sections.len()
    &&& word.codebook == sections[word.section_index as int].codebook
    &&& codebook_priority(word.codebook) > 0
    &&& codeword_limit(word.codebook) > 0
}

/// Whether a section has codewords.
spec fn section_has_codebook(sections: Seq<HcrSection>, index: usize) -> bool {
    index < sections.len() && codebook_priority(sections[index as int].codebook) > 0
}

/// Codewords in order of priority belong to sections with codewords.
pub proof fn lemma_priority_codebooks(sections: Seq<HcrSection>)
    requires
        sections.len() <= usize::MAX,
    ensures
        forall|i: int|
            0 <= i < codewords_by_priority(sections).len() ==> word_has_codebook(
                sections,
                #[trigger] codewords_by_priority(sections)[i],
            ),
{
    lemma_order_priorities(sections, 22);
    lemma_codewords_in(sections, priority_order(sections, 22));
}

proof fn lemma_order_priorities(sections: Seq<HcrSection>, priority: int)
    requires
        sections.len() <= usize::MAX,
    ensures
        forall|i: int|
            0 <= i < priority_order(sections, priority).len() ==> section_has_codebook(
                sections,
                #[trigger] priority_order(sections, priority)[i],
            ),
    decreases priority,
{
    if priority > 0 {
        lemma_order_priorities(sections, priority - 1);
        lemma_bucket(sections, priority, sections.len() as int);
        let first = sections_of_priority(sections, priority, sections.len() as int);
        let rest = priority_order(sections, priority - 1);
        assert forall|i: int| 0 <= i < (first + rest).len() implies section_has_codebook(
            sections,
            #[trigger] (first + rest)[i],
        ) by {
            if i < first.len() {
                assert(section_has_codebook(sections, first[i]));
            } else {
                assert(section_has_codebook(sections, rest[i - first.len()]));
            }
        }
    }
}

proof fn lemma_bucket(sections: Seq<HcrSection>, priority: int, count: int)
    requires
        priority > 0,
        count <= sections.len() <= usize::MAX,
    ensures
        forall|i: int|
            0 <= i < sections_of_priority(sections, priority, count).len() ==> section_has_codebook(
                sections,
                #[trigger] sections_of_priority(sections, priority, count)[i],
            ),
    decreases count,
{
    if count > 0 {
        lemma_bucket(sections, priority, count - 1);
        let before = sections_of_priority(sections, priority, count - 1);
        let after = sections_of_priority(sections, priority, count);
        assert forall|i: int| 0 <= i < after.len() implies section_has_codebook(sections, #[trigger] after[i]) by {
            if i < before.len() {
                assert(section_has_codebook(sections, before[i]));
            }
        }
    }
}

proof fn lemma_codewords_in(sections: Seq<HcrSection>, order: Seq<usize>)
    requires
        forall|i: int| 0 <= i < order.len() ==> section_has_codebook(sections, #[trigger] order[i]),
    ensures
        forall|i: int|
            0 <= i < codewords_in(sections, order).len() ==> word_has_codebook(
                sections,
                #[trigger] codewords_in(sections, order)[i],
            ),
    decreases order.len(),
{
    if order.len() > 0 {
        assert forall|i: int| 0 <= i < order.drop_last().len() implies section_has_codebook(
            sections,
            #[trigger] order.drop_last()[i],
        ) by {
            assert(section_has_codebook(sections, order[i]));
        }
        lemma_codewords_in(sections, order.drop_last());
        assert(section_has_codebook(sections, order[order.len() - 1]));
        let before = codewords_in(sections, order.drop_last());
        let after = codewords_in(sections, order);
        assert forall|i: int| 0 <= i < after.len() implies word_has_codebook(sections, #[trigger] after[i]) by {
            if i < before.len() {
                assert(word_has_codebook(sections, before[i]));
            }
        }
    }
}

} // verus!
