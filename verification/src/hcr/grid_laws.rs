//! How codewords are ordered, how segments divide a payload, and where coefficients
//! end up in the spectra.

use vstd::prelude::*;

use crate::ics::{total_length, IcsInfo, WindowSequence};
use crate::section::SectionData;

use super::decode::Codeword;
use super::encode::find_codeword;
use super::grid::{
    codebook_priority, codeword_count, codeword_limit, codeword_lines, codewords_by_priority, codewords_in, priority_order,
    section_codewords, sections_of_priority, segmentation, CodewordDescriptor, HcrSegment,
};
use super::mapping::{mapped_codewords, magnitude_limit, place_sections, place_words, replaced, short_window, spectra};
use super::sections::{
    append_unit, band_units, bands_aligned, carried_codebook, frame_sections_hold, group_units, lemma_band_units_len,
    lemma_group_units_len, repeated, runs_of, section_fits, short_units, HcrSection,
};

verus! {

// ---------------------------------------------------------------------------
// Order
// ---------------------------------------------------------------------------

/// Whether a codeword goes before another: those of larger coefficients first, then
/// by section and by place in the section.
pub open spec fn goes_before(a: CodewordDescriptor, b: CodewordDescriptor) -> bool {
    ||| magnitude_limit(a.codebook) > magnitude_limit(b.codebook)
    ||| magnitude_limit(a.codebook) == magnitude_limit(b.codebook) && a.section_index < b.section_index
    ||| magnitude_limit(a.codebook) == magnitude_limit(b.codebook) && a.section_index == b.section_index && a.codeword_index
        < b.codeword_index
}

/// The priority of codebooks follows the largest coefficients that they stand for.
pub proof fn lemma_priority_follows_magnitude(a: u8, b: u8)
    requires
        codebook_priority(a) > 0,
        codebook_priority(b) > 0,
    ensures
        codebook_priority(a) > codebook_priority(b) <==> magnitude_limit(a) > magnitude_limit(b),
{
}

/// Whether a section of an order goes before another.
spec fn section_before(sections: Seq<HcrSection>, a: usize, b: usize) -> bool {
    let first = codebook_priority(sections[a as int].codebook);
    let second = codebook_priority(sections[b as int].codebook);
    first > second || (first == second && a < b)
}

spec fn ordered(sections: Seq<HcrSection>, order: Seq<usize>) -> bool {
    forall|i: int, j: int|
        0 <= i < j < order.len() ==> section_before(sections, #[trigger] order[i], #[trigger] order[j])
}

proof fn lemma_bucket_ordered(sections: Seq<HcrSection>, priority: int, count: int)
    requires
        0 <= count <= sections.len() <= usize::MAX,
    ensures
        ordered(sections, sections_of_priority(sections, priority, count)),
        forall|i: int|
            0 <= i < sections_of_priority(sections, priority, count).len() ==> #[trigger] sections_of_priority(
                sections,
                priority,
                count,
            )[i] < count && codebook_priority(
                sections[sections_of_priority(sections, priority, count)[i] as int].codebook,
            ) == priority,
    decreases count,
{
    if count > 0 {
        lemma_bucket_ordered(sections, priority, count - 1);
        let before = sections_of_priority(sections, priority, count - 1);
        let all = sections_of_priority(sections, priority, count);
        assert forall|i: int, j: int| 0 <= i < j < all.len() implies section_before(
            sections,
            #[trigger] all[i],
            #[trigger] all[j],
        ) by {
            assert(all[i] == before[i]);
            if j < before.len() {
                assert(all[j] == before[j]);
            }
        }
    }
}

proof fn lemma_order_ordered(sections: Seq<HcrSection>, priority: int)
    requires
        sections.len() <= usize::MAX,
    ensures
        ordered(sections, priority_order(sections, priority)),
        forall|i: int|
            0 <= i < priority_order(sections, priority).len() ==> #[trigger] priority_order(sections, priority)[i]
                < sections.len() && 0 < codebook_priority(
                sections[priority_order(sections, priority)[i] as int].codebook,
            ) <= priority,
    decreases priority,
{
    if priority > 0 {
        lemma_order_ordered(sections, priority - 1);
        lemma_bucket_ordered(sections, priority, sections.len() as int);
        let first = sections_of_priority(sections, priority, sections.len() as int);
        let rest = priority_order(sections, priority - 1);
        let all = priority_order(sections, priority);
        assert forall|i: int| 0 <= i < all.len() implies #[trigger] all[i] < sections.len() && 0 < codebook_priority(
            sections[all[i] as int].codebook,
        ) <= priority by {
            if i < first.len() {
                assert(all[i] == first[i]);
            } else {
                assert(all[i] == rest[i - first.len()]);
            }
        }
        assert forall|i: int, j: int| 0 <= i < j < all.len() implies section_before(
            sections,
            #[trigger] all[i],
            #[trigger] all[j],
        ) by {
            if j < first.len() {
                assert(all[i] == first[i] && all[j] == first[j]);
            } else if i < first.len() {
                assert(all[i] == first[i]);
                assert(all[j] == rest[j - first.len()]);
            } else {
                assert(all[i] == rest[i - first.len()]);
                assert(all[j] == rest[j - first.len()]);
            }
        }
    }
}

proof fn lemma_codewords_ordered(sections: Seq<HcrSection>, order: Seq<usize>)
    requires
        sections.len() <= usize::MAX,
        ordered(sections, order),
        forall|i: int|
            0 <= i < order.len() ==> #[trigger] order[i] < sections.len() && codebook_priority(
                sections[order[i] as int].codebook,
            ) > 0,
    ensures
        forall|k: int|
            0 <= k < codewords_in(sections, order).len() ==> order.contains(
                (#[trigger] codewords_in(sections, order)[k]).section_index,
            ) && codewords_in(sections, order)[k].codebook == sections[codewords_in(
                sections,
                order,
            )[k].section_index as int].codebook,
        forall|i: int, j: int|
            0 <= i < j < codewords_in(sections, order).len() ==> goes_before(
                #[trigger] codewords_in(sections, order)[i],
                #[trigger] codewords_in(sections, order)[j],
            ),
    decreases order.len(),
{
    if order.len() > 0 {
        let shorter = order.drop_last();
        let last = order.last();
        assert(order[order.len() - 1] == last);
        assert forall|i: int, j: int| 0 <= i < j < shorter.len() implies section_before(
            sections,
            #[trigger] shorter[i],
            #[trigger] shorter[j],
        ) by {
            assert(section_before(sections, order[i], order[j]));
        }
        assert forall|i: int| 0 <= i < shorter.len() implies #[trigger] shorter[i] < sections.len() && codebook_priority(
            sections[shorter[i] as int].codebook,
        ) > 0 by {
            assert(order[i] < sections.len());
        }
        lemma_codewords_ordered(sections, shorter);
        let before = codewords_in(sections, shorter);
        let more = section_codewords(sections, last, codeword_count(sections[last as int]));
        let all = codewords_in(sections, order);
        assert(all == before + more);
        assert forall|k: int| 0 <= k < all.len() implies order.contains((#[trigger] all[k]).section_index)
            && all[k].codebook == sections[all[k].section_index as int].codebook by {
            if k < before.len() {
                assert(all[k] == before[k]);
                assert(shorter.contains(before[k].section_index));
                let a = choose|a: int| 0 <= a < shorter.len() && shorter[a] == before[k].section_index;
                assert(order[a] == before[k].section_index);
            } else {
                assert(all[k] == more[k - before.len()]);
                assert(order[order.len() - 1] == last);
            }
        }
        assert forall|i: int, j: int| 0 <= i < j < all.len() implies goes_before(
            #[trigger] all[i],
            #[trigger] all[j],
        ) by {
            if j < before.len() {
                assert(all[i] == before[i] && all[j] == before[j]);
            } else if i < before.len() {
                assert(all[i] == before[i]);
                assert(all[j] == more[j - before.len()]);
                assert(shorter.contains(before[i].section_index));
                let a = choose|a: int| 0 <= a < shorter.len() && shorter[a] == before[i].section_index;
                assert(order[a] == before[i].section_index);
                assert(section_before(sections, order[a], order[order.len() - 1]));
                lemma_priority_follows_magnitude(all[i].codebook, all[j].codebook);
                lemma_priority_follows_magnitude(all[j].codebook, all[i].codebook);
            } else {
                assert(all[i] == more[i - before.len()]);
                assert(all[j] == more[j - before.len()]);
            }
        }
    }
}

/// Codewords are ordered by the largest coefficients of their codebooks, the largest
/// first, then by section, then by place: of any two, the first goes before the
/// second.
pub proof fn lemma_codewords_in_order(sections: Seq<HcrSection>, i: int, j: int)
    requires
        sections.len() <= usize::MAX,
        0 <= i < j < codewords_by_priority(sections).len(),
    ensures
        goes_before(codewords_by_priority(sections)[i], codewords_by_priority(sections)[j]),
{
    lemma_order_ordered(sections, 22);
    lemma_codewords_ordered(sections, priority_order(sections, 22));
}

// ---------------------------------------------------------------------------
// Segments
// ---------------------------------------------------------------------------

/// The smaller of two numbers.
pub open spec fn smaller(a: usize, b: usize) -> int {
    if a <= b {
        a as int
    } else {
        b as int
    }
}

/// The bits that a codeword's segment is meant to have: as many as the longest
/// codeword of its codebook, but no more than the longest codeword that was sent.
pub open spec fn meant_width(word: CodewordDescriptor, longest: usize) -> int {
    smaller(codeword_limit(word.codebook), longest)
}

/// Whether segments divide a payload among the first codewords: they follow each
/// other from the first bit on, each as wide as it is meant to be. Where a codeword
/// has no segment of its own, its segment would not have fitted behind them, and the
/// last of them takes all that is left.
pub open spec fn divide(segments: Seq<HcrSegment>, words: Seq<CodewordDescriptor>, total: usize, longest: usize) -> bool {
    &&& segments.len() <= words.len()
    &&& segments.len() > 0 ==> segments[0].left_bit == 0
    &&& forall|i: int| 0 < i < segments.len() ==> (#[trigger] segments[i]).left_bit == segments[i - 1].right_bit + 1
    &&& forall|i: int|
        0 <= i < segments.len() && (i + 1 < segments.len() || segments.len() == words.len()) ==> (
        #[trigger] segments[i]).right_bit + 1 - segments[i].left_bit == meant_width(words[i], longest)
    &&& 0 < segments.len() == words.len() ==> segments.last().right_bit < total
    &&& 0 < segments.len() < words.len() ==> {
        let last = segments.len() - 1;
        &&& segments[last].right_bit + 1 == total
        &&& segments[last].left_bit + meant_width(words[last], longest) <= total
        &&& segments[last].left_bit + meant_width(words[last], longest) + meant_width(words[last + 1], longest) > total
    }
    &&& 0 == segments.len() < words.len() ==> meant_width(words[0], longest) > total
}

proof fn lemma_segments_step(words: Seq<CodewordDescriptor>, total: usize, longest: usize)
    requires
        longest > 0,
        forall|i: int| 0 <= i < words.len() ==> codeword_limit((#[trigger] words[i]).codebook) > 0,
    ensures
        ({
            let all = segmentation(words, total, longest);
            &&& divide(all.segments, words, total, longest)
            &&& all.full == (all.segments.len() < words.len())
            &&& !all.full ==> all.bit == if words.len() == 0 {
                0
            } else {
                all.segments.last().right_bit + 1
            }
            &&& 0 <= all.bit <= total
        }),
    decreases words.len(),
{
    if words.len() > 0 {
        let shorter = words.drop_last();
        assert forall|i: int| 0 <= i < shorter.len() implies codeword_limit((#[trigger] shorter[i]).codebook) > 0 by {
            assert(codeword_limit(words[i].codebook) > 0);
        }
        lemma_segments_step(shorter, total, longest);
        let before = segmentation(shorter, total, longest);
        let all = segmentation(words, total, longest);
        let word = words.last();
        assert(words[words.len() - 1] == word);
        assert(codeword_limit(word.codebook) > 0);
        let count = before.segments.len() as int;
        if before.full {
            assert(all == before);
            assert(shorter[count] == words[count]);
            assert(count > 0 ==> shorter[count - 1] == words[count - 1]);
        } else if before.bit + meant_width(word, longest) <= total {
            assert(all.segments.drop_last() =~= before.segments);
            assert forall|i: int| 0 < i < all.segments.len() implies (#[trigger] all.segments[i]).left_bit == all.segments[i
                - 1].right_bit + 1 by {
                if i < count {
                    assert(all.segments[i] == before.segments[i]);
                    assert(all.segments[i - 1] == before.segments[i - 1]);
                } else {
                    assert(all.segments[i - 1] == before.segments.last());
                }
            }
            assert forall|i: int| 0 <= i < all.segments.len() implies (#[trigger] all.segments[i]).right_bit + 1
                - all.segments[i].left_bit == meant_width(words[i], longest) by {
                if i < count {
                    assert(all.segments[i] == before.segments[i]);
                    assert(shorter[i] == words[i]);
                }
            }
            if count > 0 {
                assert(all.segments[0] == before.segments[0]);
            }
        } else if count > 0 {
            let last = count - 1;
            assert(all.segments.len() == count);
            assert forall|i: int| 0 < i < count implies (#[trigger] all.segments[i]).left_bit == all.segments[i - 1].right_bit
                + 1 by {
                assert(all.segments[i].left_bit == before.segments[i].left_bit);
                assert(all.segments[i - 1] == before.segments[i - 1]);
            }
            assert forall|i: int| 0 <= i && i + 1 < count implies (#[trigger] all.segments[i]).right_bit + 1
                - all.segments[i].left_bit == meant_width(words[i], longest) by {
                assert(all.segments[i] == before.segments[i]);
                assert(shorter[i] == words[i]);
            }
            assert(shorter[last] == words[last]);
            assert(before.segments[last].right_bit + 1 - before.segments[last].left_bit == meant_width(
                shorter[last],
                longest,
            ));
            assert(all.segments[last].left_bit == before.segments[last].left_bit);
            assert(all.segments[0].left_bit == before.segments[0].left_bit);
        }
    }
}

/// Segments divide a payload among the first codewords in order of priority.
pub proof fn lemma_segments_divide(words: Seq<CodewordDescriptor>, total: usize, longest: usize)
    requires
        longest > 0,
        forall|i: int| 0 <= i < words.len() ==> codeword_limit((#[trigger] words[i]).codebook) > 0,
    ensures
        divide(segmentation(words, total, longest).segments, words, total, longest),
{
    lemma_segments_step(words, total, longest);
}

// ---------------------------------------------------------------------------
// Spectra
// ---------------------------------------------------------------------------

/// The number of lines in front of a section.
pub open spec fn lines_before(sections: Seq<HcrSection>, index: int) -> int
    decreases index,
{
    if index <= 0 {
        0
    } else {
        lines_before(sections, index - 1) + sections[index - 1].spectral_lines
    }
}

/// Whether a coefficient of a codeword stands at its line.
spec fn stands_at_line(
    lines: Seq<i32>,
    given: Seq<Codeword>,
    section: int,
    dimension: int,
    start: int,
    word: int,
    k: int,
) -> bool {
    &&& find_codeword(given, section as usize, word as usize, 0) is Some
    &&& lines[start + word * dimension + k] == find_codeword(given, section as usize, word as usize, 0)->0.coefficients[k]
}

proof fn lemma_words_placed(section: HcrSection, index: usize, given: Seq<Codeword>, start: int, word: int, lines: Seq<i32>)
    requires
        0 <= start,
        start + section.spectral_lines <= lines.len(),
        0 <= word <= section.spectral_lines / codeword_lines(section.codebook),
        place_words(section, index, given, start, word, lines) is Ok,
    ensures
        ({
            let dimension = codeword_lines(section.codebook) as int;
            let next = place_words(section, index, given, start, word, lines)->Ok_0;
            &&& next.len() == lines.len()
            &&& forall|p: int|
                0 <= p < start + word * dimension || start + section.spectral_lines <= p < lines.len()
                    ==> #[trigger] next[p] == lines[p]
            &&& forall|w: int, k: int|
                word <= w < section.spectral_lines / codeword_lines(section.codebook) && 0 <= k < dimension
                    ==> #[trigger] stands_at_line(next, given, index as int, dimension, start, w, k)
        }),
    decreases section.spectral_lines / codeword_lines(section.codebook) - word,
{
    let dimension = codeword_lines(section.codebook) as int;
    let count = (section.spectral_lines / codeword_lines(section.codebook)) as int;
    if word < count {
        let found = find_codeword(given, index, word as usize, 0)->0;
        let at = start + word * dimension;
        let changed = replaced(lines, at, found.coefficients);
        assert((word + 1) * dimension == word * dimension + dimension) by (nonlinear_arith);
        assert(word * dimension + dimension <= section.spectral_lines && 0 <= word * dimension) by (nonlinear_arith)
            requires
                0 <= word,
                word + 1 <= count,
                count == section.spectral_lines as int / dimension,
                1 <= dimension,
        ;
        lemma_words_placed(section, index, given, start, word + 1, changed);
        let next = place_words(section, index, given, start, word, lines)->Ok_0;
        assert(next == place_words(section, index, given, start, word + 1, changed)->Ok_0);
        assert forall|p: int|
            0 <= p < start + word * dimension || start + section.spectral_lines <= p < lines.len() implies #[trigger] next[p]
            == lines[p] by {
            assert(next[p] == changed[p]);
        }
        assert forall|w: int, k: int| word <= w < count && 0 <= k < dimension implies #[trigger] stands_at_line(
            next,
            given,
            index as int,
            dimension,
            start,
            w,
            k,
        ) by {
            if w == word {
                assert(found.coefficients.len() == dimension);
                assert(changed[at + k] == found.coefficients[k]);
                assert(0 <= at + k < start + (word + 1) * dimension);
                assert(next[at + k] == changed[at + k]);
            }
        }
    }
}

proof fn lemma_sections_placed(sections: Seq<HcrSection>, given: Seq<Codeword>, index: int, lines: Seq<i32>)
    requires
        0 <= index <= sections.len() <= usize::MAX,
        place_sections(sections, given, index, lines_before(sections, index), lines) is Ok,
        0 <= lines_before(sections, index) <= lines.len(),
    ensures
        ({
            let all = place_sections(sections, given, index, lines_before(sections, index), lines)->Ok_0;
            &&& all.len() == lines.len()
            &&& lines_before(sections, index) <= lines_before(sections, sections.len() as int) <= lines.len()
            &&& forall|p: int|
                0 <= p < lines_before(sections, index) || lines_before(sections, sections.len() as int) <= p < lines.len()
                    ==> #[trigger] all[p] == lines[p]
            &&& forall|s: int|
                index <= s < sections.len() ==> lines_before(sections, index) <= #[trigger] lines_before(sections, s)
                    && lines_before(sections, s) + sections[s].spectral_lines <= lines.len()
            &&& forall|s: int, p: int|
                index <= s < sections.len() && sections[s].codebook == 0 && #[trigger] lines_before(sections, s) <= p
                    < lines_before(sections, s) + sections[s].spectral_lines ==> #[trigger] all[p] == lines[p]
            &&& forall|s: int, w: int, k: int|
                index <= s < sections.len() && sections[s].codebook != 0 && 0 <= w < codeword_count(sections[s]) && 0 <= k
                    < codeword_lines(sections[s].codebook) ==> #[trigger] stands_at_line(
                    all,
                    given,
                    s,
                    codeword_lines(sections[s].codebook) as int,
                    lines_before(sections, s),
                    w,
                    k,
                )
        }),
    decreases sections.len() - index,
{
    if index < sections.len() {
        let section = sections[index];
        let start = lines_before(sections, index);
        let dimension = codeword_lines(section.codebook) as int;
        assert(lines_before(sections, index + 1) == start + section.spectral_lines);
        let next = if section.codebook == 0 {
            lines
        } else {
            assert(0 * dimension == 0);
            lemma_words_placed(section, index as usize, given, start, 0, lines);
            place_words(section, index as usize, given, start, 0, lines)->Ok_0
        };
        lemma_sections_placed(sections, given, index + 1, next);
        let all = place_sections(sections, given, index, start, lines)->Ok_0;
        assert(all == place_sections(sections, given, index + 1, lines_before(sections, index + 1), next)->Ok_0);
        assert forall|p: int|
            0 <= p < start || lines_before(sections, sections.len() as int) <= p < lines.len() implies #[trigger] all[p]
            == lines[p] by {
            assert(all[p] == next[p]);
        }
        assert forall|s: int, p: int|
            index <= s < sections.len() && sections[s].codebook == 0 && #[trigger] lines_before(sections, s) <= p
                < lines_before(sections, s) + sections[s].spectral_lines implies #[trigger] all[p] == lines[p] by {
            assert(all[p] == next[p]);
            if s > index && section.codebook != 0 {
                assert(next[p] == lines[p]);
            }
        }
        assert forall|s: int, w: int, k: int|
            index <= s < sections.len() && sections[s].codebook != 0 && 0 <= w < codeword_count(sections[s]) && 0 <= k
                < codeword_lines(sections[s].codebook) implies #[trigger] stands_at_line(
            all,
            given,
            s,
            codeword_lines(sections[s].codebook) as int,
            lines_before(sections, s),
            w,
            k,
        ) by {
            if s == index {
                let p = start + w * dimension + k;
                assert(w * dimension + dimension <= section.spectral_lines && 0 <= w * dimension) by (nonlinear_arith)
                    requires
                        0 <= w,
                        w + 1 <= section.spectral_lines as int / dimension,
                        1 <= dimension,
                ;
                assert(stands_at_line(next, given, index, dimension, start, w, k));
                assert(all[p] == next[p]);
            } else {
                assert(index + 1 <= s);
            }
        }
    }
}

/// Where a line of a frame's sections ends up: in the only window of a long frame, at
/// the same place; in a short frame, four neighbouring lines go to one window, the
/// next four to the next window, and so on in turn.
pub open spec fn line_place(sequence: WindowSequence, line: int) -> (int, int) {
    if sequence == WindowSequence::EightShort {
        ((line / 4) % 8, 4 * (line / 32) + line % 4)
    } else {
        (0, line)
    }
}

proof fn lemma_line_place(sequence: WindowSequence, windows: int, granule: int, lines: Seq<i32>, line: int)
    requires
        spectra(sequence, windows, granule, lines) is Ok,
        0 <= line < lines.len(),
    ensures
        ({
            let (window, place) = line_place(sequence, line);
            let all = spectra(sequence, windows, granule, lines)->Ok_0;
            &&& 0 <= window < all.len()
            &&& 0 <= place < all[window].len()
            &&& all[window][place] == lines[line]
        }),
{
    if sequence == WindowSequence::EightShort {
        let (window, place) = line_place(sequence, line);
        assert(0 <= window < 8);
        assert(0 <= place < 128);
        assert(place / 4 == line / 32 && place % 4 == line % 4);
        assert(window * 4 + (place / 4) * 32 + place % 4 == line);
        assert(short_window(lines, window)[place] == lines[line]);
    }
}

proof fn lemma_length_not_negative(lengths: Seq<u8>)
    ensures
        total_length(lengths) >= 0,
    decreases lengths.len(),
{
    if lengths.len() > 0 {
        lemma_length_not_negative(lengths.drop_last());
    }
}

/// The coefficients of a codeword end up in the spectra behind the sections and the
/// codewords before it, and sections of codebook zero are silent.
pub proof fn lemma_coefficients_placed(
    ics: IcsInfo,
    sections: Seq<HcrSection>,
    given: Seq<Codeword>,
    granule: usize,
    section: int,
    word: int,
    k: int,
)
    requires
        sections.len() <= usize::MAX,
        mapped_codewords(ics, sections, given, granule) is Ok,
        0 <= section < sections.len(),
        0 <= word < codeword_count(sections[section]),
        0 <= k < codeword_lines(sections[section].codebook),
    ensures
        ({
            let windows = mapped_codewords(ics, sections, given, granule)->Ok_0;
            let line = lines_before(sections, section) + word * codeword_lines(sections[section].codebook) + k;
            let (window, place) = line_place(ics.window_sequence, line);
            &&& 0 <= window < windows.len()
            &&& 0 <= place < windows[window].len()
            &&& windows[window][place] == if sections[section].codebook == 0 {
                0
            } else {
                find_codeword(given, section as usize, word as usize, 0)->0.coefficients[k]
            }
        }),
{
    lemma_length_not_negative(ics.window_group_lengths@);
    let total = total_length(ics.window_group_lengths@) * granule;
    assert(total >= 0) by (nonlinear_arith)
        requires
            total == total_length(ics.window_group_lengths@) * granule,
            total_length(ics.window_group_lengths@) >= 0,
            granule >= 0,
    ;
    let empty = Seq::new(total as nat, |i: int| 0i32);
    let lines = place_sections(sections, given, 0, 0, empty)->Ok_0;
    lemma_sections_placed(sections, given, 0, empty);
    let dimension = codeword_lines(sections[section].codebook) as int;
    let line = lines_before(sections, section) + word * dimension + k;
    assert(word * dimension + dimension <= sections[section].spectral_lines && 0 <= word * dimension) by (nonlinear_arith)
        requires
            0 <= word,
            word + 1 <= sections[section].spectral_lines as int / dimension,
            1 <= dimension,
    ;
    if sections[section].codebook == 0 {
        assert(lines[line] == empty[line]);
    } else {
        assert(stands_at_line(lines, given, section, dimension, lines_before(sections, section), word, k));
    }
    lemma_line_place(
        ics.window_sequence,
        total_length(ics.window_group_lengths@) as int,
        granule as int,
        lines,
        line,
    );
}

// ---------------------------------------------------------------------------
// Sections of short windows
// ---------------------------------------------------------------------------

proof fn lemma_length_step(lengths: Seq<u8>, group: int)
    requires
        0 <= group < lengths.len(),
    ensures
        total_length(lengths.take(group + 1)) == total_length(lengths.take(group)) + lengths[group],
        total_length(lengths.take(group)) >= 0,
{
    assert(lengths.take(group + 1).drop_last() =~= lengths.take(group));
    assert(lengths.take(group + 1).last() == lengths[group]);
    lemma_length_not_negative(lengths.take(group));
}

proof fn lemma_length_grows(lengths: Seq<u8>, low: int, high: int)
    requires
        0 <= low <= high <= lengths.len(),
    ensures
        total_length(lengths.take(low)) <= total_length(lengths.take(high)),
    decreases high - low,
{
    if low < high {
        lemma_length_grows(lengths, low, high - 1);
        lemma_length_step(lengths, high - 1);
    }
}

proof fn lemma_group_unit(lengths: Seq<u8>, codebooks: Seq<Vec<u8>>, band: int, groups: int, group: int, window: int)
    requires
        0 <= group < groups <= lengths.len(),
        total_length(lengths.take(group)) <= window < total_length(lengths.take(group + 1)),
    ensures
        group_units(lengths, codebooks, band, groups).len() == total_length(lengths.take(groups)),
        0 <= window < total_length(lengths.take(groups)),
        group_units(lengths, codebooks, band, groups)[window] == carried_codebook(codebooks[group]@[band]),
    decreases groups,
{
    lemma_length_step(lengths, groups - 1);
    lemma_length_step(lengths, group);
    lemma_length_grows(lengths, group + 1, groups);
    lemma_group_units_len(lengths, codebooks, band, groups);
    lemma_group_units_len(lengths, codebooks, band, groups - 1);
    let before = group_units(lengths, codebooks, band, groups - 1);
    let more = repeated(carried_codebook(codebooks[groups - 1]@[band]), lengths[groups - 1] as nat);
    assert(group_units(lengths, codebooks, band, groups) == before + more);
    if group < groups - 1 {
        lemma_group_unit(lengths, codebooks, band, groups - 1, group, window);
        assert((before + more)[window] == before[window]);
    } else {
        assert((before + more)[window] == more[window - before.len()]);
    }
}

proof fn lemma_band_unit(lengths: Seq<u8>, codebooks: Seq<Vec<u8>>, band: int, count: int, unit: int, window: int)
    requires
        0 <= unit < count,
        0 <= window < total_length(lengths),
    ensures
        0 <= unit * total_length(lengths) + window < band_units(lengths, codebooks, band, count).len(),
        band_units(lengths, codebooks, band, count)[unit * total_length(lengths) + window] == group_units(
            lengths,
            codebooks,
            band,
            lengths.len() as int,
        )[window],
    decreases count,
{
    let total = total_length(lengths);
    lemma_band_units_len(lengths, codebooks, band, count);
    lemma_band_units_len(lengths, codebooks, band, count - 1);
    lemma_group_units_len(lengths, codebooks, band, lengths.len() as int);
    assert(lengths.take(lengths.len() as int) =~= lengths);
    assert(0 <= unit * total && unit * total + total <= count * total) by (nonlinear_arith)
        requires
            0 <= unit,
            unit + 1 <= count,
            0 <= total,
    ;
    let before = band_units(lengths, codebooks, band, count - 1);
    let more = group_units(lengths, codebooks, band, lengths.len() as int);
    assert(band_units(lengths, codebooks, band, count) == before + more);
    if unit < count - 1 {
        lemma_band_unit(lengths, codebooks, band, count - 1, unit, window);
        assert((before + more)[unit * total + window] == before[unit * total + window]);
    } else {
        assert((before + more)[unit * total + window] == more[window]);
    }
}

proof fn lemma_units_len(lengths: Seq<u8>, codebooks: Seq<Vec<u8>>, offsets: Seq<usize>, bands: int)
    requires
        0 <= bands < offsets.len(),
        bands_aligned(offsets, bands),
        forall|i: int, j: int| 0 <= i <= j <= bands ==> #[trigger] offsets[i] <= #[trigger] offsets[j],
        offsets[0] == 0,
    ensures
        offsets[bands] as int % 4 == 0,
        short_units(lengths, codebooks, offsets, bands).len() == (offsets[bands] as int / 4) * total_length(lengths),
    decreases bands,
{
    if bands > 0 {
        assert(bands_aligned(offsets, bands - 1)) by {
            assert forall|b: int| 0 <= b < bands - 1 implies (#[trigger] offsets[b + 1] - offsets[b]) % 4 == 0 by {
            }
        }
        lemma_units_len(lengths, codebooks, offsets, bands - 1);
        assert(offsets[bands - 1] <= offsets[bands]);
        assert((offsets[(bands - 1) + 1] - offsets[bands - 1]) % 4 == 0);
        let count = (offsets[bands] - offsets[bands - 1]) / 4;
        lemma_band_units_len(lengths, codebooks, bands - 1, count);
        let total = total_length(lengths);
        let low = offsets[bands - 1] as int / 4;
        assert(offsets[bands] as int / 4 == low + count);
        assert((low + count) * total == low * total + count * total) by (nonlinear_arith);
    } else {
        assert(0 * total_length(lengths) == 0);
    }
}

/// Four lines of a short window make a unit; the units of all windows at the same lines
/// follow each other, window by window, and those of the next lines behind them. Each
/// unit has the codebook of its band in the group of its window.
pub proof fn lemma_short_unit_place(
    lengths: Seq<u8>,
    codebooks: Seq<Vec<u8>>,
    offsets: Seq<usize>,
    bands: int,
    band: int,
    group: int,
    window: int,
    line: int,
)
    requires
        0 <= band < bands < offsets.len(),
        bands_aligned(offsets, bands),
        forall|i: int, j: int| 0 <= i <= j <= bands ==> #[trigger] offsets[i] <= #[trigger] offsets[j],
        offsets[0] == 0,
        offsets[band] <= line < offsets[band + 1],
        0 <= group < lengths.len(),
        total_length(lengths.take(group)) <= window < total_length(lengths.take(group + 1)),
    ensures
        ({
            let units = short_units(lengths, codebooks, offsets, bands);
            let place = (line / 4) * total_length(lengths) + window;
            &&& units.len() == (offsets[bands] as int / 4) * total_length(lengths)
            &&& 0 <= place < units.len()
            &&& units[place] == carried_codebook(codebooks[group]@[band])
        }),
    decreases bands,
{
    let total = total_length(lengths);
    lemma_units_len(lengths, codebooks, offsets, bands);
    lemma_group_unit(lengths, codebooks, band, lengths.len() as int, group, window);
    assert(lengths.take(lengths.len() as int) =~= lengths);
    assert(bands_aligned(offsets, bands - 1)) by {
        assert forall|b: int| 0 <= b < bands - 1 implies (#[trigger] offsets[b + 1] - offsets[b]) % 4 == 0 by {
        }
    }
    lemma_units_len(lengths, codebooks, offsets, bands - 1);
    assert(offsets[band + 1] <= offsets[bands]);
    assert((offsets[(bands - 1) + 1] - offsets[bands - 1]) % 4 == 0);
    let before = short_units(lengths, codebooks, offsets, bands - 1);
    let count = (offsets[bands] - offsets[bands - 1]) / 4;
    let more = band_units(lengths, codebooks, bands - 1, count);
    assert(short_units(lengths, codebooks, offsets, bands) == before + more);
    let place = (line / 4) * total + window;
    assert(line / 4 + 1 <= offsets[bands] as int / 4);
    assert(0 <= (line / 4) * total && (line / 4) * total + total <= (offsets[bands] as int / 4) * total) by (nonlinear_arith)
        requires
            0 <= line / 4,
            line / 4 + 1 <= offsets[bands] as int / 4,
            0 <= total,
    ;
    if band < bands - 1 {
        lemma_short_unit_place(lengths, codebooks, offsets, bands - 1, band, group, window, line);
        assert((before + more)[place] == before[place]);
    } else {
        let low = offsets[bands - 1] as int / 4;
        let unit = line / 4 - low;
        assert(0 <= unit < count);
        lemma_band_unit(lengths, codebooks, bands - 1, count, unit, window);
        assert((line / 4) * total == low * total + unit * total) by (nonlinear_arith)
            requires
                line / 4 == low + unit,
        ;
        assert((before + more)[place] == more[place - before.len()]);
    }
}

/// The units that runs are made of, four lines each.
pub open spec fn units_in(runs: Seq<HcrSection>) -> Seq<u8>
    decreases runs.len(),
{
    if runs.len() == 0 {
        Seq::empty()
    } else {
        units_in(runs.drop_last()) + repeated(runs.last().codebook, (runs.last().spectral_lines / 4) as nat)
    }
}

/// Runs hold the units in order, every four lines of a run one unit of its codebook;
/// none is empty, and neighbouring runs have different codebooks.
pub proof fn lemma_runs_hold_units(units: Seq<u8>)
    requires
        4 * units.len() <= usize::MAX,
    ensures
        units_in(runs_of(units)) == units,
        forall|i: int| 0 < i < runs_of(units).len() ==> (#[trigger] runs_of(units)[i]).codebook != runs_of(units)[i
            - 1].codebook,
        forall|i: int|
            0 <= i < runs_of(units).len() ==> 0 < (#[trigger] runs_of(units)[i]).spectral_lines <= 4 * units.len()
                && runs_of(units)[i].spectral_lines % 4 == 0,
    decreases units.len(),
{
    let runs = runs_of(units);
    if units.len() == 0 {
        assert(units_in(runs) =~= units);
    } else {
        let shorter = units.drop_last();
        let codebook = units.last();
        lemma_runs_hold_units(shorter);
        let before = runs_of(shorter);
        let count = before.len() as int;
        assert(runs == append_unit(before, codebook));
        assert(units =~= shorter.push(codebook));
        if count > 0 && before.last().codebook == codebook {
            let lines = before.last().spectral_lines;
            assert(before[count - 1] == before.last());
            assert(runs.drop_last() =~= before.drop_last());
            assert(runs.last().spectral_lines == lines + 4);
            assert(repeated(codebook, ((lines + 4) / 4) as nat) =~= repeated(codebook, (lines / 4) as nat).push(codebook));
            assert(units_in(runs) =~= units_in(before).push(codebook));
            assert forall|i: int| 0 < i < runs.len() implies (#[trigger] runs[i]).codebook != runs[i - 1].codebook by {
                assert(before[i].codebook != before[i - 1].codebook);
            }
            assert forall|i: int| 0 <= i < runs.len() implies 0 < (#[trigger] runs[i]).spectral_lines <= 4 * units.len()
                && runs[i].spectral_lines % 4 == 0 by {
                assert(0 < before[i].spectral_lines <= 4 * shorter.len());
            }
        } else {
            assert(runs.drop_last() =~= before);
            assert(repeated(codebook, 1) =~= seq![codebook]);
            assert(units_in(runs) =~= units_in(before).push(codebook));
            assert forall|i: int| 0 < i < runs.len() implies (#[trigger] runs[i]).codebook != runs[i - 1].codebook by {
                if i < count {
                    assert(before[i].codebook != before[i - 1].codebook);
                } else {
                    assert(runs[i - 1] == before.last());
                }
            }
            assert forall|i: int| 0 <= i < runs.len() implies 0 < (#[trigger] runs[i]).spectral_lines <= 4 * units.len()
                && runs[i].spectral_lines % 4 == 0 by {
                if i < count {
                    assert(0 < before[i].spectral_lines <= 4 * shorter.len());
                }
            }
        }
    }
}

/// Where the sections of a long window follow one another from the first band on, each begins
/// at the line where its first band begins and ends where its last band ends. It keeps its
/// codebook, but for those without codewords.
pub proof fn lemma_long_sections_divide(
    ics: IcsInfo,
    data: SectionData,
    offsets: Seq<usize>,
    list: Seq<HcrSection>,
    index: int,
)
    requires
        ics.window_sequence != WindowSequence::EightShort,
        frame_sections_hold(ics, data, offsets, Ok(list)),
        forall|i: int, j: int| 0 <= i <= j < offsets.len() ==> #[trigger] offsets[i] <= #[trigger] offsets[j],
        data.sections@.len() > 0 ==> data.sections@[0].start_sfb == 0,
        forall|i: int|
            0 <= i < data.sections@.len() - 1 ==> (#[trigger] data.sections@[i]).end_sfb == data.sections@[i + 1].start_sfb,
        0 <= index < list.len(),
    ensures
        list.len() == data.sections@.len(),
        lines_before(list, index) == offsets[data.sections@[index].start_sfb as int] - offsets[0],
        lines_before(list, index + 1) == offsets[data.sections@[index].end_sfb as int] - offsets[0],
        list[index].codebook == data.sections@[index].codebook || list[index].codebook == 0,
        data.sections@[index].codebook < 12 || 16 <= data.sections@[index].codebook < 32 ==> list[index].codebook
            == data.sections@[index].codebook,
    decreases index,
{
    let section = data.sections@[index];
    assert(section_fits(section, ics.max_sfb as int));
    assert(offsets[section.start_sfb as int] <= offsets[section.end_sfb as int]);
    if index > 0 {
        lemma_long_sections_divide(ics, data, offsets, list, index - 1);
        assert(data.sections@[index - 1].end_sfb == data.sections@[index - 1 + 1].start_sfb);
    } else {
        assert(lines_before(list, 0) == 0);
    }
    assert(lines_before(list, index + 1) == lines_before(list, index) + list[index].spectral_lines);
}

} // verus!
