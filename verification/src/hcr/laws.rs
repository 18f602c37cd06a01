//! Encoding and decoding lose no codeword and change none.

use vstd::prelude::*;

use crate::bits::padding;
use crate::huffman::tuple_bits;

use super::decode::{by_section, of_section, priority_codewords, reordered_codewords, Codeword, PriorityCodeword};
use super::encode::{
    encode_words, encoded_codewords, filled_segment, find_codeword, given_at_left_edges, given_by_priority,
    lemma_encoded_codewords_decode, lemma_priority_pass_decodes, lemma_tuple_length,
};
use super::grid::{
    codebook_priority, codeword_count, codeword_limit, codewords_by_priority, codewords_in, first_section_error,
    lemma_priority_codebooks, priority_order, section_codewords, sections_of_priority, word_has_codebook, CodewordDescriptor,
};
use super::layout::all_coded;
use super::sections::HcrSection;

verus! {

/// Whether a codeword belongs to a place that there is: to a section with
/// codewords, and to one of them.
pub open spec fn has_place(sections: Seq<HcrSection>, word: Codeword) -> bool {
    &&& word.section_index < sections.len()
    &&& codebook_priority(sections[word.section_index as int].codebook) > 0
    &&& word.codeword_index < codeword_count(sections[word.section_index as int])
}

/// Whether two codewords belong to the same place.
pub open spec fn same_place(a: Codeword, b: Codeword) -> bool {
    a.section_index == b.section_index && a.codeword_index == b.codeword_index
}

/// Whether every codeword belongs to a place of its own.
pub open spec fn one_for_each_place(sections: Seq<HcrSection>, given: Seq<Codeword>) -> bool {
    &&& forall|i: int| 0 <= i < given.len() ==> has_place(sections, #[trigger] given[i])
    &&& forall|i: int, j: int|
        0 <= i < j < given.len() ==> !same_place(#[trigger] given[i], #[trigger] given[j])
}

/// Whether a codeword comes before another: by section, then by its index.
pub open spec fn comes_before(a: Codeword, b: Codeword) -> bool {
    a.section_index < b.section_index || (a.section_index == b.section_index && a.codeword_index < b.codeword_index)
}

/// Whether codewords are in order of their places.
pub open spec fn in_order(words: Seq<Codeword>) -> bool {
    forall|i: int, j: int| 0 <= i < j < words.len() ==> comes_before(#[trigger] words[i], #[trigger] words[j])
}

/// The codewords of a section, as far as they were given.
spec fn listed_section(sections: Seq<HcrSection>, given: Seq<Codeword>, section: int) -> Seq<Codeword> {
    given_by_priority(
        section_codewords(sections, section as usize, codeword_count(sections[section])),
        given,
    )
}

proof fn lemma_of_section_concat(a: Seq<Codeword>, b: Seq<Codeword>, section: int, count: int)
    requires
        0 <= count <= b.len(),
    ensures
        of_section(a + b, section, a.len() + count) == of_section(a, section, a.len() as int) + of_section(b, section, count),
    decreases count,
{
    let left = of_section(a, section, a.len() as int);
    if count > 0 {
        lemma_of_section_concat(a, b, section, count - 1);
        assert((a + b)[a.len() + count - 1] == b[count - 1]);
        assert(of_section(a + b, section, a.len() + count) =~= left + of_section(b, section, count));
    } else {
        lemma_of_section_prefix(a, b, section, a.len() as int);
        assert(left + of_section(b, section, 0) =~= left);
    }
}

proof fn lemma_of_section_prefix(a: Seq<Codeword>, b: Seq<Codeword>, section: int, count: int)
    requires
        0 <= count <= a.len(),
    ensures
        of_section(a + b, section, count) == of_section(a, section, count),
    decreases count,
{
    if count > 0 {
        lemma_of_section_prefix(a, b, section, count - 1);
        assert((a + b)[count - 1] == a[count - 1]);
    }
}

/// Codewords that all belong to one section are kept or left out together.
proof fn lemma_of_one_section(words: Seq<Codeword>, own: int, section: int, count: int)
    requires
        0 <= count <= words.len(),
        forall|i: int| 0 <= i < words.len() ==> (#[trigger] words[i]).section_index == own,
    ensures
        of_section(words, section, count) == if own == section {
            words.take(count)
        } else {
            Seq::empty()
        },
    decreases count,
{
    if count > 0 {
        lemma_of_one_section(words, own, section, count - 1);
        assert(words[count - 1].section_index == own);
        assert(words.take(count - 1).push(words[count - 1]) =~= words.take(count));
    } else {
        assert(words.take(0) =~= Seq::<Codeword>::empty());
    }
}

/// The codewords of a section among those of an order of sections.
spec fn picked(sections: Seq<HcrSection>, given: Seq<Codeword>, order: Seq<usize>, section: int) -> Seq<Codeword> {
    let words = given_by_priority(codewords_in(sections, order), given);
    of_section(words, section, words.len() as int)
}

proof fn lemma_picked_one_more(sections: Seq<HcrSection>, given: Seq<Codeword>, order: Seq<usize>, last: usize, section: int)
    requires
        last < sections.len(),
        0 <= section < sections.len() <= usize::MAX,
    ensures
        picked(sections, given, order.push(last), section) == picked(sections, given, order, section) + if last == section {
            listed_section(sections, given, section)
        } else {
            Seq::empty()
        },
{
    let longer = order.push(last);
    assert(longer.drop_last() =~= order);
    let before = codewords_in(sections, order);
    let more = section_codewords(sections, last, codeword_count(sections[last as int]));
    assert(codewords_in(sections, longer) == before + more);
    let a = given_by_priority(before, given);
    let b = given_by_priority(more, given);
    assert(given_by_priority(before + more, given) =~= a + b);
    lemma_of_section_concat(a, b, section, b.len() as int);
    lemma_of_one_section(b, last as int, section, b.len() as int);
    assert(b.take(b.len() as int) =~= b);
}

proof fn lemma_picked_joined(
    sections: Seq<HcrSection>,
    given: Seq<Codeword>,
    first: Seq<usize>,
    second: Seq<usize>,
    section: int,
)
    requires
        0 <= section < sections.len() <= usize::MAX,
        forall|i: int| 0 <= i < second.len() ==> #[trigger] second[i] < sections.len(),
    ensures
        picked(sections, given, first + second, section) == picked(sections, given, first, section) + picked(
            sections,
            given,
            second,
            section,
        ),
    decreases second.len(),
{
    let left = picked(sections, given, first, section);
    if second.len() == 0 {
        assert(first + second =~= first);
        assert(given_by_priority(codewords_in(sections, second), given).len() == 0);
        assert(left + picked(sections, given, second, section) =~= left);
    } else {
        let shorter = second.drop_last();
        let last = second.last();
        assert(last < sections.len());
        assert forall|i: int| 0 <= i < shorter.len() implies #[trigger] shorter[i] < sections.len() by {
            assert(second[i] < sections.len());
        }
        lemma_picked_joined(sections, given, first, shorter, section);
        assert(first + second =~= (first + shorter).push(last));
        assert(second =~= shorter.push(last));
        lemma_picked_one_more(sections, given, first + shorter, last, section);
        lemma_picked_one_more(sections, given, shorter, last, section);
        let tail = if last == section {
            listed_section(sections, given, section)
        } else {
            Seq::empty()
        };
        let middle = picked(sections, given, shorter, section);
        assert((left + middle) + tail =~= left + (middle + tail));
    }
}

proof fn lemma_picked_of_priority(sections: Seq<HcrSection>, given: Seq<Codeword>, priority: int, count: int, section: int)
    requires
        0 <= count <= sections.len() <= usize::MAX,
        0 <= section < sections.len(),
    ensures
        picked(sections, given, sections_of_priority(sections, priority, count), section) == if section < count
            && codebook_priority(sections[section].codebook) == priority {
            listed_section(sections, given, section)
        } else {
            Seq::empty()
        },
        forall|i: int|
            0 <= i < sections_of_priority(sections, priority, count).len() ==> #[trigger] sections_of_priority(
                sections,
                priority,
                count,
            )[i] < sections.len(),
    decreases count,
{
    if count > 0 {
        lemma_picked_of_priority(sections, given, priority, count - 1, section);
        let before = sections_of_priority(sections, priority, count - 1);
        if codebook_priority(sections[count - 1].codebook) == priority {
            lemma_picked_one_more(sections, given, before, (count - 1) as usize, section);
            let whole = listed_section(sections, given, section);
            assert(Seq::<Codeword>::empty() + whole =~= whole);
            assert(whole + Seq::<Codeword>::empty() =~= whole);
            assert(Seq::<Codeword>::empty() + Seq::<Codeword>::empty() =~= Seq::<Codeword>::empty());
        }
    } else {
        assert(given_by_priority(codewords_in(sections, Seq::empty()), given).len() == 0);
        assert(picked(sections, given, Seq::empty(), section) =~= Seq::<Codeword>::empty());
    }
}

proof fn lemma_picked_by_priority(sections: Seq<HcrSection>, given: Seq<Codeword>, priority: int, section: int)
    requires
        sections.len() <= usize::MAX,
        0 <= section < sections.len(),
        priority >= 0,
    ensures
        picked(sections, given, priority_order(sections, priority), section) == if 0 < codebook_priority(
            sections[section].codebook,
        ) <= priority {
            listed_section(sections, given, section)
        } else {
            Seq::empty()
        },
        forall|i: int|
            0 <= i < priority_order(sections, priority).len() ==> #[trigger] priority_order(sections, priority)[i]
                < sections.len(),
    decreases priority,
{
    if priority > 0 {
        let first = sections_of_priority(sections, priority, sections.len() as int);
        let second = priority_order(sections, priority - 1);
        lemma_picked_by_priority(sections, given, priority - 1, section);
        lemma_picked_of_priority(sections, given, priority, sections.len() as int, section);
        lemma_picked_joined(sections, given, first, second, section);
        assert forall|i: int| 0 <= i < (first + second).len() implies #[trigger] (first + second)[i] < sections.len() by {
            if i < first.len() {
                assert(first[i] < sections.len());
            } else {
                assert(second[i - first.len()] < sections.len());
            }
        }
        let whole = listed_section(sections, given, section);
        assert(Seq::<Codeword>::empty() + whole =~= whole);
        assert(whole + Seq::<Codeword>::empty() =~= whole);
        assert(Seq::<Codeword>::empty() + Seq::<Codeword>::empty() =~= Seq::<Codeword>::empty());
    } else {
        assert(given_by_priority(codewords_in(sections, Seq::empty()), given).len() == 0);
        assert(picked(sections, given, Seq::empty(), section) =~= Seq::<Codeword>::empty());
    }
}

/// Section by section, codewords are in order of their places, and those of every
/// section with codewords are there.
proof fn lemma_sections_in_order(sections: Seq<HcrSection>, given: Seq<Codeword>, count: int)
    requires
        0 <= count <= sections.len() <= usize::MAX,
    ensures
        ({
            let list = by_section(given_by_priority(codewords_by_priority(sections), given), count);
            &&& in_order(list)
            &&& forall|i: int| 0 <= i < list.len() ==> (#[trigger] list[i]).section_index < count
            &&& forall|section: int, index: int|
                0 <= section < count && codebook_priority(sections[section].codebook) > 0 && 0 <= index < codeword_count(
                    sections[section],
                ) ==> list.contains(#[trigger] listed_section(sections, given, section)[index])
        }),
    decreases count,
{
    let words = given_by_priority(codewords_by_priority(sections), given);
    if count > 0 {
        lemma_sections_in_order(sections, given, count - 1);
        lemma_picked_by_priority(sections, given, 22, count - 1);
        let before = by_section(words, count - 1);
        let more = of_section(words, count - 1, words.len() as int);
        let list = by_section(words, count);
        assert(list == before + more);
        let whole = listed_section(sections, given, count - 1);
        assert(more == whole || more.len() == 0);
        assert forall|i: int, j: int| 0 <= i < j < list.len() implies comes_before(
            #[trigger] list[i],
            #[trigger] list[j],
        ) by {
            if j < before.len() {
                assert(comes_before(before[i], before[j]));
            } else if i < before.len() {
                assert(before[i].section_index < count - 1);
                assert(list[j] == whole[j - before.len()]);
            } else {
                assert(list[i] == whole[i - before.len()]);
                assert(list[j] == whole[j - before.len()]);
            }
        }
        assert forall|i: int| 0 <= i < list.len() implies (#[trigger] list[i]).section_index < count by {
            if i < before.len() {
                assert(before[i].section_index < count - 1);
            } else {
                assert(list[i] == whole[i - before.len()]);
            }
        }
        assert forall|section: int, index: int|
            0 <= section < count && codebook_priority(sections[section].codebook) > 0 && 0 <= index < codeword_count(
                sections[section],
            ) implies list.contains(#[trigger] listed_section(sections, given, section)[index]) by {
            let word = listed_section(sections, given, section)[index];
            if section < count - 1 {
                assert(before.contains(word));
                let i = choose|i: int| 0 <= i < before.len() && before[i] == word;
                assert(list[i] == word);
            } else {
                assert(codebook_priority(sections[section].codebook) <= 22);
                assert(list[before.len() + index] == word);
            }
        }
    }
}

/// What is found was given, at the place that was asked for.
proof fn lemma_found_was_given(given: Seq<Codeword>, section: usize, index: usize, from: int)
    requires
        0 <= from,
    ensures
        find_codeword(given, section, index, from) matches Some(word) ==> given.contains(word) && word.section_index
            == section && word.codeword_index == index,
        find_codeword(given, section, index, from) is None ==> forall|k: int|
            from <= k < given.len() ==> !((#[trigger] given[k]).section_index == section && given[k].codeword_index
                == index),
    decreases given.len() - from,
{
    if from < given.len() {
        lemma_found_was_given(given, section, index, from + 1);
    }
}

/// What could be encoded was all given, and has bits.
proof fn lemma_all_given(words: Seq<CodewordDescriptor>, given: Seq<Codeword>, i: int, encoded: Seq<bool>)
    requires
        0 <= i,
        encode_words(words, given, i, encoded) is Ok,
    ensures
        forall|k: int|
            i <= k < words.len() ==> (find_codeword(
                given,
                (#[trigger] words[k]).section_index,
                words[k].codeword_index,
                0,
            ) matches Some(word) && tuple_bits(words[k].codebook, word.coefficients) is Some),
    decreases words.len() - i,
{
    if i < words.len() {
        let word = find_codeword(given, words[i].section_index, words[i].codeword_index, 0)->0;
        let code = tuple_bits(words[i].codebook, word.coefficients)->0;
        lemma_all_given(
            words,
            given,
            i + 1,
            encoded + filled_segment(code, codeword_limit(words[i].codebook)),
        );
    }
}

/// What is sorted by section was there before.
proof fn lemma_sorted_was_there(words: Seq<Codeword>, count: int)
    ensures
        forall|i: int| 0 <= i < by_section(words, count).len() ==> words.contains(#[trigger] by_section(words, count)[i]),
    decreases count,
{
    if count > 0 {
        lemma_sorted_was_there(words, count - 1);
        lemma_picked_was_there(words, count - 1, words.len() as int);
        let before = by_section(words, count - 1);
        let more = of_section(words, count - 1, words.len() as int);
        assert forall|i: int| 0 <= i < (before + more).len() implies words.contains(#[trigger] (before + more)[i]) by {
            if i < before.len() {
                assert(words.contains(before[i]));
            } else {
                assert(words.contains(more[i - before.len()]));
            }
        }
    }
}

proof fn lemma_picked_was_there(words: Seq<Codeword>, section: int, count: int)
    requires
        count <= words.len(),
    ensures
        forall|i: int|
            0 <= i < of_section(words, section, count).len() ==> words.contains(#[trigger] of_section(words, section, count)[i]),
    decreases count,
{
    if count > 0 {
        lemma_picked_was_there(words, section, count - 1);
        let before = of_section(words, section, count - 1);
        let all = of_section(words, section, count);
        assert forall|i: int| 0 <= i < all.len() implies words.contains(#[trigger] all[i]) by {
            if i < before.len() {
                assert(words.contains(before[i]));
            } else {
                assert(all[i] == words[count - 1]);
            }
        }
    }
}

/// Sequences without repetition that hold the same are arrangements of each
/// other.
proof fn lemma_same_elements(a: Seq<Codeword>, b: Seq<Codeword>)
    requires
        a.no_duplicates(),
        b.no_duplicates(),
        forall|i: int| 0 <= i < a.len() ==> b.contains(#[trigger] a[i]),
        forall|i: int| 0 <= i < b.len() ==> a.contains(#[trigger] b[i]),
    ensures
        a.to_multiset() == b.to_multiset(),
        a.len() == b.len(),
{
    broadcast use vstd::seq_lib::group_to_multiset_ensures;

    a.lemma_multiset_has_no_duplicates();
    b.lemma_multiset_has_no_duplicates();
    assert forall|word: Codeword| a.to_multiset().count(word) == b.to_multiset().count(word) by {
        if a.contains(word) {
            let i = choose|i: int| 0 <= i < a.len() && a[i] == word;
            assert(b.contains(a[i]));
        }
        if b.contains(word) {
            let i = choose|i: int| 0 <= i < b.len() && b[i] == word;
            assert(a.contains(b[i]));
        }
    }
    assert(a.to_multiset() =~= b.to_multiset());
    assert(a.to_multiset().len() == a.len() && b.to_multiset().len() == b.len());
}

/// Codewords that were all given, sorted by their places, are those that were given,
/// where each was given once.
pub proof fn lemma_sorted_is_given(sections: Seq<HcrSection>, given: Seq<Codeword>)
    requires
        sections.len() <= usize::MAX,
        one_for_each_place(sections, given),
        all_coded(codewords_by_priority(sections), given),
    ensures
        ({
            let words = given_by_priority(codewords_by_priority(sections), given);
            let list = by_section(words, sections.len() as int);
            &&& in_order(list)
            &&& list.to_multiset() == given.to_multiset()
            &&& list.len() == given.len()
            &&& forall|i: int| 0 <= i < words.len() ==> given.contains(#[trigger] words[i])
        }),
{
    let descriptors = codewords_by_priority(sections);
    let words = given_by_priority(descriptors, given);
    let list = by_section(words, sections.len() as int);
    lemma_sections_in_order(sections, given, sections.len() as int);
    lemma_sorted_was_there(words, sections.len() as int);
    assert forall|i: int| 0 <= i < words.len() implies given.contains(#[trigger] words[i]) by {
        let section = descriptors[i].section_index;
        let index = descriptors[i].codeword_index;
        assert(find_codeword(given, section, index, 0) is Some);
        lemma_found_was_given(given, section, index, 0);
        assert(words[i] == find_codeword(given, section, index, 0)->0);
    }
    assert forall|i: int| 0 <= i < list.len() implies given.contains(#[trigger] list[i]) by {
        assert(words.contains(list[i]));
        let k = choose|k: int| 0 <= k < words.len() && words[k] == list[i];
        assert(given.contains(words[k]));
    }
    assert forall|k: int| 0 <= k < given.len() implies list.contains(#[trigger] given[k]) by {
        let word = given[k];
        assert(has_place(sections, word));
        lemma_found_was_given(given, word.section_index, word.codeword_index, 0);
        let found = find_codeword(given, word.section_index, word.codeword_index, 0)->0;
        let other = choose|other: int| 0 <= other < given.len() && given[other] == found;
        if other < k {
            assert(!same_place(given[other], given[k]));
        } else if k < other {
            assert(!same_place(given[k], given[other]));
        }
        let listed = listed_section(sections, given, word.section_index as int)[word.codeword_index as int];
        assert(list.contains(listed));
        assert(listed == word);
    }
    assert(list.no_duplicates()) by {
        assert forall|i: int, j: int| 0 <= i < list.len() && 0 <= j < list.len() && i != j implies list[i] != list[j] by {
            if i < j {
                assert(comes_before(list[i], list[j]));
            } else {
                assert(comes_before(list[j], list[i]));
            }
        }
    }
    assert(given.no_duplicates()) by {
        assert forall|i: int, j: int| 0 <= i < given.len() && 0 <= j < given.len() && i != j implies given[i] != given[j] by {
            if i < j {
                assert(!same_place(given[i], given[j]));
            } else {
                assert(!same_place(given[j], given[i]));
            }
        }
    }
    lemma_same_elements(list, given);
}

/// Decoding what was encoded gives back the codewords, sorted by section and
/// index: nothing is lost, and nothing is changed.
pub proof fn lemma_round_trip_sorts(sections: Seq<HcrSection>, given: Seq<Codeword>, payload: Seq<bool>)
    requires
        sections.len() <= usize::MAX,
        first_section_error(sections, 0, true) is None,
        one_for_each_place(sections, given),
        encoded_codewords(sections, given) matches Ok((side_info, bits)) && payload == bits + padding(bits.len()),
    ensures
        reordered_codewords(payload, encoded_codewords(sections, given)->Ok_0.0, sections) matches Ok(list) && in_order(list)
            && list.to_multiset() == given.to_multiset() && list.len() == given.len(),
{
    lemma_encoded_codewords_decode(sections, given, payload);
    lemma_all_given(codewords_by_priority(sections), given, 0, Seq::empty());
    lemma_sorted_is_given(sections, given);
}

/// The number of the first `count` codewords that belong to the first sections.
spec fn placed_count(words: Seq<Codeword>, sections: int, count: int) -> int
    decreases sections,
{
    if sections <= 0 {
        0
    } else {
        placed_count(words, sections - 1, count) + of_section(words, sections - 1, count).len()
    }
}

proof fn lemma_placed_step(words: Seq<Codeword>, sections: int, count: int)
    requires
        0 < count <= words.len(),
    ensures
        placed_count(words, sections, count) == placed_count(words, sections, count - 1) + if words[count
            - 1].section_index < sections {
            1int
        } else {
            0
        },
    decreases sections,
{
    if sections > 0 {
        lemma_placed_step(words, sections - 1, count);
    }
}

proof fn lemma_placed_none(words: Seq<Codeword>, sections: int)
    ensures
        placed_count(words, sections, 0) == 0,
    decreases sections,
{
    if sections > 0 {
        lemma_placed_none(words, sections - 1);
    }
}

proof fn lemma_placed_all(words: Seq<Codeword>, sections: int, count: int)
    requires
        0 <= count <= words.len(),
        forall|i: int| 0 <= i < words.len() ==> (#[trigger] words[i]).section_index < sections,
    ensures
        placed_count(words, sections, count) == count,
    decreases count,
{
    if count > 0 {
        lemma_placed_all(words, sections, count - 1);
        lemma_placed_step(words, sections, count);
        assert(words[count - 1].section_index < sections);
    } else {
        lemma_placed_none(words, sections);
    }
}

proof fn lemma_sorted_length(words: Seq<Codeword>, sections: int)
    ensures
        by_section(words, sections).len() == placed_count(words, sections, words.len() as int),
    decreases sections,
{
    if sections > 0 {
        lemma_sorted_length(words, sections - 1);
    }
}

/// Whether a codeword of the priority pass is one that was given, and took the
/// bits that its coefficients cost.
pub open spec fn decodes_given(sections: Seq<HcrSection>, given: Seq<Codeword>, word: PriorityCodeword) -> bool {
    &&& given.contains(
        Codeword {
            section_index: word.section_index,
            codeword_index: word.codeword_index,
            coefficients: word.coefficients,
        },
    )
    &&& word.section_index < sections.len()
    &&& tuple_bits(sections[word.section_index as int].codebook, word.coefficients) matches Some(bits)
        && word.consumed_bits == bits.len()
}

/// The priority pass alone gives back every codeword that was encoded: as many as
/// were given, each one that was given, with the bits that it costs.
pub proof fn lemma_priority_pass_is_enough(sections: Seq<HcrSection>, given: Seq<Codeword>, payload: Seq<bool>)
    requires
        sections.len() <= usize::MAX,
        first_section_error(sections, 0, true) is None,
        one_for_each_place(sections, given),
        encoded_codewords(sections, given) matches Ok((side_info, bits)) && payload == bits + padding(bits.len()),
    ensures
        priority_codewords(payload, encoded_codewords(sections, given)->Ok_0.0, sections) matches Ok(list) && list.len()
            == given.len() && forall|i: int| 0 <= i < list.len() ==> decodes_given(sections, given, #[trigger] list[i]),
{
    let descriptors = codewords_by_priority(sections);
    let words = given_by_priority(descriptors, given);
    let list = given_at_left_edges(descriptors, given);
    lemma_priority_pass_decodes(sections, given, payload);
    lemma_all_given(descriptors, given, 0, Seq::empty());
    lemma_sorted_is_given(sections, given);
    lemma_priority_codebooks(sections);
    assert forall|i: int| 0 <= i < words.len() implies (#[trigger] words[i]).section_index < sections.len() by {
        assert(word_has_codebook(sections, descriptors[i]));
    }
    lemma_placed_all(words, sections.len() as int, words.len() as int);
    lemma_sorted_length(words, sections.len() as int);
    assert forall|i: int| 0 <= i < list.len() implies decodes_given(sections, given, #[trigger] list[i]) by {
        assert(given.contains(words[i]));
        assert(word_has_codebook(sections, descriptors[i]));
        lemma_tuple_length(descriptors[i].codebook, words[i].coefficients);
    }
}

/// Sections that all have codewords and could be encoded are whole numbers of
/// codewords long.
pub proof fn lemma_coded_sections_are_whole(sections: Seq<HcrSection>, index: int)
    requires
        0 <= index,
        forall|i: int| 0 <= i < sections.len() ==> codebook_priority((#[trigger] sections[i]).codebook) > 0,
        first_section_error(sections, index, false) is None,
    ensures
        first_section_error(sections, index, true) is None,
    decreases sections.len() - index,
{
    if index < sections.len() {
        assert(codebook_priority(sections[index].codebook) > 0);
        lemma_coded_sections_are_whole(sections, index + 1);
    }
}

} // verus!
