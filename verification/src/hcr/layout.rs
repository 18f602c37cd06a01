//! Where the codewords of a reordered payload lie, and that decoding finds them
//! there.
//!
//! Every segment holds a priority codeword at its left edge. The other codewords
//! come in sets of one for each segment. The first set is laid out from the right
//! edges of what is left of the segments, the next one from the left edges, and so
//! on in turn. A codeword begins in its own segment; what does not fit goes on at
//! the same edge of the next segment, around the end, once all codewords of the set
//! had the room of their own.

use vstd::arithmetic::div_mod::{lemma_mod_add_multiples_vanish, lemma_small_mod};
use vstd::prelude::*;

use crate::bits::{stands_at, BitCursor};
use crate::huffman::tuple_bits;
use crate::spectral::{decode_tuple, lemma_decode_cut, lemma_tuple_decodes, SpectralError};

use super::decode::{
    by_section, collect_set, decode_first, decode_priority, decode_sets, feed, feed_segments, flipped, fresh_words,
    lemma_empty_lacks_bits, reordered_codewords, run_trials, try_decode, whole_segments, Codeword, Gathered, Gathering,
    PriorityCodeword,
};
use super::encode::{find_codeword, given_by_priority};
use super::grid::{
    codewords_by_priority, first_section_error, lemma_priority_codebooks, lemma_segmentation, segment_of, segmentation,
    word_has_codebook, CodewordDescriptor, HcrSegment,
};
use super::laws::{in_order, lemma_sorted_is_given, one_for_each_place};
use super::sections::HcrSection;
use super::segment::{decode_at_edge, directional_bits, take_bit, HcrReadDirection, HcrSegmentState};
use super::side_info::{HcrError, HcrSideInfo};

verus! {

// ---------------------------------------------------------------------------
// Layout
// ---------------------------------------------------------------------------

/// The free bits of a segment: those from `left` on and below `right`.
pub struct Room {
    pub left: int,
    pub right: int,
}

impl Room {
    /// The number of free bits.
    pub open spec fn size(self) -> int {
        self.right - self.left
    }

    /// The place of a bit, counted from an edge.
    pub open spec fn place(self, from_right: bool, k: int) -> int {
        if from_right {
            self.right - 1 - k
        } else {
            self.left + k
        }
    }

    /// What is free behind `count` bits at an edge.
    pub open spec fn behind(self, from_right: bool, count: int) -> Room {
        if from_right {
            Room { left: self.left, right: self.right - count }
        } else {
            Room { left: self.left + count, right: self.right }
        }
    }

    /// How much of a codeword's rest fits.
    pub open spec fn share(self, rest: Seq<bool>) -> int {
        if rest.len() <= self.size() {
            rest.len() as int
        } else {
            self.size()
        }
    }
}

/// The segment in which a codeword goes on after `trial` segments: as many places
/// behind its own, around the end.
pub open spec fn segment_for(word: int, trial: int, count: int) -> int {
    if word + trial < count {
        word + trial
    } else {
        word + trial - count
    }
}

/// The codeword that goes on in a segment after `trial` segments.
pub open spec fn word_for(segment: int, trial: int, count: int) -> int {
    if segment >= trial {
        segment - trial
    } else {
        segment - trial + count
    }
}

/// Whether what fits of the codewords' rests stands at the edges of the segments.
pub open spec fn trial_stands(payload: Seq<bool>, rooms: Seq<Room>, rest: Seq<Seq<bool>>, trial: int, from_right: bool) -> bool {
    forall|i: int, k: int|
        0 <= i < rest.len() && 0 <= k < rooms[segment_for(i, trial, rooms.len() as int)].share(rest[i])
            ==> payload[rooms[segment_for(i, trial, rooms.len() as int)].place(from_right, k)] == #[trigger] rest[i][k]
}

/// What is free then.
pub open spec fn rooms_behind(rooms: Seq<Room>, rest: Seq<Seq<bool>>, trial: int, from_right: bool) -> Seq<Room> {
    Seq::new(
        rooms.len(),
        |s: int|
            {
                let i = word_for(s, trial, rooms.len() as int);
                if i < rest.len() {
                    rooms[s].behind(from_right, rooms[s].share(rest[i]))
                } else {
                    rooms[s]
                }
            },
    )
}

/// What is left of the codewords then.
pub open spec fn rest_behind(rooms: Seq<Room>, rest: Seq<Seq<bool>>, trial: int) -> Seq<Seq<bool>> {
    Seq::new(
        rest.len(),
        |i: int| rest[i].skip(rooms[segment_for(i, trial, rooms.len() as int)].share(rest[i])),
    )
}

/// Whether the rests of a set's codewords stand in the segments, to the last bit.
pub open spec fn set_stands(payload: Seq<bool>, rooms: Seq<Room>, rest: Seq<Seq<bool>>, trial: int, from_right: bool) -> bool
    decreases rooms.len() - trial,
{
    if trial >= rooms.len() {
        forall|i: int| 0 <= i < rest.len() ==> (#[trigger] rest[i]).len() == 0
    } else {
        trial_stands(payload, rooms, rest, trial, from_right) && set_stands(
            payload,
            rooms_behind(rooms, rest, trial, from_right),
            rest_behind(rooms, rest, trial),
            trial + 1,
            from_right,
        )
    }
}

/// What is free behind a set.
pub open spec fn set_rooms(rooms: Seq<Room>, rest: Seq<Seq<bool>>, trial: int, from_right: bool) -> Seq<Room>
    decreases rooms.len() - trial,
{
    if trial >= rooms.len() {
        rooms
    } else {
        set_rooms(
            rooms_behind(rooms, rest, trial, from_right),
            rest_behind(rooms, rest, trial),
            trial + 1,
            from_right,
        )
    }
}

/// The end of the set that begins with a codeword: one codeword for each segment,
/// as far as there are.
pub open spec fn set_end(start: int, count: int, words: int) -> int {
    if start + count <= words {
        start + count
    } else {
        words
    }
}

/// Whether the codewords from `start` on stand in the segments, in sets that begin
/// at the right and at the left edges in turn.
pub open spec fn sets_stand(payload: Seq<bool>, codes: Seq<Seq<bool>>, start: int, rooms: Seq<Room>, from_right: bool) -> bool
    decreases codes.len() - start,
{
    if rooms.len() == 0 || start >= codes.len() {
        start >= codes.len()
    } else {
        let end = set_end(start, rooms.len() as int, codes.len() as int);
        let set = codes.subrange(start, end);
        set_stands(payload, rooms, set, 0, from_right) && sets_stand(
            payload,
            codes,
            end,
            set_rooms(rooms, set, 0, from_right),
            !from_right,
        )
    }
}

/// The segments before anything is laid out.
pub open spec fn empty_rooms(segments: Seq<HcrSegment>) -> Seq<Room> {
    Seq::new(segments.len(), |s: int| Room { left: segments[s].left_bit as int, right: segments[s].right_bit + 1 })
}

/// Whether codewords stand in the segments of a payload: the first ones at the left
/// edges, one for each segment, and the others in sets, of which the first begins at
/// the right edges.
pub open spec fn laid_out(payload: Seq<bool>, codes: Seq<Seq<bool>>, segments: Seq<HcrSegment>) -> bool {
    let rooms = empty_rooms(segments);
    let free = Seq::new(rooms.len(), |s: int| rooms[s].behind(false, codes[s].len() as int));
    &&& 0 < segments.len() <= codes.len()
    &&& forall|s: int| 0 <= s < segments.len() ==> (#[trigger] codes[s]).len() <= rooms[s].size()
    &&& forall|s: int, k: int|
        0 <= s < segments.len() && 0 <= k < codes[s].len() ==> payload[segments[s].left_bit + k] == #[trigger] codes[s][k]
    &&& sets_stand(payload, codes, segments.len() as int, free, true)
}

/// Whether all codewords were given, and have bits.
pub open spec fn all_coded(words: Seq<CodewordDescriptor>, given: Seq<Codeword>) -> bool {
    forall|i: int|
        0 <= i < words.len() ==> (find_codeword(
            given,
            (#[trigger] words[i]).section_index,
            words[i].codeword_index,
            0,
        ) matches Some(word) && tuple_bits(words[i].codebook, word.coefficients) is Some)
}

// ---------------------------------------------------------------------------
// One segment and one codeword
// ---------------------------------------------------------------------------

spec fn direction_of(from_right: bool) -> HcrReadDirection {
    if from_right {
        HcrReadDirection::RightToLeft
    } else {
        HcrReadDirection::LeftToRight
    }
}

/// Whether a state is that of a segment with the given room.
spec fn has_room(payload: Seq<bool>, state: HcrSegmentState, room: Room) -> bool {
    &&& 0 <= room.left
    &&& 0 <= room.size()
    &&& room.right <= payload.len() <= usize::MAX
    &&& state.remaining_bits == room.size()
    &&& room.size() > 0 ==> state.left_bit == room.left && state.right_bit == room.right - 1
}

/// Whether bits are exactly those of a codeword.
spec fn is_code(code: Seq<bool>, codebook: u8, coefficients: Seq<i32>) -> bool {
    &&& code.len() > 0
    &&& decode_tuple(codebook, BitCursor::at(code, 0)) == (
        Ok::<Seq<i32>, SpectralError>(coefficients),
        BitCursor::at(code, code.len() as int),
    )
}

/// Whether a codeword was gathered but for a rest.
spec fn lacks_rest(word: Gathered, code: Seq<bool>, coefficients: Seq<i32>, rest: Seq<bool>) -> bool {
    &&& rest.len() <= code.len()
    &&& rest == code.skip(code.len() - rest.len())
    &&& word.bits == code.take(code.len() - rest.len())
    &&& word.complete == (rest.len() == 0)
    &&& word.complete ==> word.coefficients == coefficients
}

proof fn lemma_code_cut(code: Seq<bool>, codebook: u8, coefficients: Seq<i32>, kept: int)
    requires
        is_code(code, codebook, coefficients),
        0 <= kept <= code.len(),
    ensures
        try_decode(code.take(kept), codebook) == if kept < code.len() {
            Ok::<Option<(Seq<i32>, int)>, HcrError>(None)
        } else {
            Ok(Some((coefficients, kept)))
        },
{
    if kept < code.len() {
        lemma_decode_cut(codebook, code, coefficients, code.len() as int, kept);
    } else {
        assert(code.take(kept) =~= code);
    }
}

/// A segment feeds a codeword with what stands at its edge.
proof fn lemma_feed(
    payload: Seq<bool>,
    state: HcrSegmentState,
    room: Room,
    word: Gathered,
    code: Seq<bool>,
    codebook: u8,
    coefficients: Seq<i32>,
    rest: Seq<bool>,
    from_right: bool,
) -> (fed: (HcrSegmentState, Gathered))
    requires
        has_room(payload, state, room),
        is_code(code, codebook, coefficients),
        lacks_rest(word, code, coefficients, rest),
        forall|k: int| 0 <= k < room.share(rest) ==> payload[room.place(from_right, k)] == #[trigger] rest[k],
    ensures
        feed(payload, state, word, codebook, direction_of(from_right)) == Ok::<(HcrSegmentState, Gathered), HcrError>(fed),
        has_room(payload, fed.0, room.behind(from_right, room.share(rest))),
        lacks_rest(fed.1, code, coefficients, rest.skip(room.share(rest))),
    decreases room.size(),
{
    let direction = direction_of(from_right);
    if rest.len() == 0 || room.size() == 0 {
        assert(rest.skip(0) =~= rest);
        (state, word)
    } else {
        assert(payload[room.place(from_right, 0)] == rest[0]);
        let next = state.advanced(direction, 1);
        assert(take_bit(payload, state, direction) == Ok::<(bool, HcrSegmentState), HcrError>((rest[0], next)));
        let smaller = room.behind(from_right, 1);
        assert(has_room(payload, next, smaller));
        let done = code.len() - rest.len();
        let bits = word.bits.push(rest[0]);
        assert(rest[0] == code[done]);
        assert(bits =~= code.take(done + 1));
        let tail = rest.skip(1);
        assert(tail =~= code.skip(done + 1));
        lemma_code_cut(code, codebook, coefficients, done + 1);
        assert(room.share(rest) == 1 + smaller.share(tail));
        if tail.len() == 0 {
            let whole = Gathered { bits: bits.take(done + 1), coefficients, complete: true };
            assert(bits.take(done + 1) =~= bits);
            assert(next.restored(direction, bits.len() - (done + 1)) == next);
            assert(feed(payload, state, word, codebook, direction) == Ok::<(HcrSegmentState, Gathered), HcrError>(
                (next, whole),
            ));
            assert(rest.skip(1) =~= rest.skip(room.share(rest)));
            (next, whole)
        } else {
            let more = Gathered { bits, coefficients: word.coefficients, complete: false };
            assert forall|k: int| 0 <= k < smaller.share(tail) implies payload[smaller.place(from_right, k)]
                == #[trigger] tail[k] by {
                assert(payload[room.place(from_right, k + 1)] == rest[k + 1]);
            }
            let fed = lemma_feed(payload, next, smaller, more, code, codebook, coefficients, tail, from_right);
            assert(feed(payload, state, word, codebook, direction) == feed(payload, next, more, codebook, direction));
            assert(tail.skip(smaller.share(tail)) =~= rest.skip(room.share(rest)));
            assert(smaller.behind(from_right, smaller.share(tail)) == room.behind(from_right, room.share(rest)));
            fed
        }
    }
}

// ---------------------------------------------------------------------------
// One set
// ---------------------------------------------------------------------------

/// Whether segments have the given rooms.
spec fn have_rooms(payload: Seq<bool>, states: Seq<HcrSegmentState>, rooms: Seq<Room>) -> bool {
    states.len() == rooms.len() && forall|s: int|
        0 <= s < states.len() ==> has_room(payload, #[trigger] states[s], rooms[s])
}

/// Whether the bits of a set's codewords are known.
spec fn are_codes(set: Seq<CodewordDescriptor>, codes: Seq<Seq<bool>>, targets: Seq<Codeword>) -> bool {
    &&& set.len() == codes.len() == targets.len()
    &&& forall|i: int|
        0 <= i < set.len() ==> is_code(#[trigger] codes[i], set[i].codebook, targets[i].coefficients)
}

/// Whether the codewords of a set were gathered but for their rests.
spec fn lack_rests(words: Seq<Gathered>, codes: Seq<Seq<bool>>, targets: Seq<Codeword>, rest: Seq<Seq<bool>>) -> bool {
    &&& words.len() == codes.len() == targets.len() == rest.len()
    &&& forall|i: int|
        0 <= i < words.len() ==> lacks_rest(#[trigger] words[i], codes[i], targets[i].coefficients, rest[i])
}

proof fn lemma_places(segment: int, trial: int, count: int)
    requires
        0 <= trial < count,
        0 <= segment < count,
    ensures
        (segment + count - trial) % count == word_for(segment, trial, count),
        0 <= word_for(segment, trial, count) < count,
        segment_for(word_for(segment, trial, count), trial, count) == segment,
        forall|i: int|
            0 <= i < count && #[trigger] segment_for(i, trial, count) == segment ==> i == word_for(segment, trial, count),
{
    if segment >= trial {
        lemma_mod_add_multiples_vanish(segment - trial, count);
        lemma_small_mod((segment - trial) as nat, count as nat);
    } else {
        lemma_small_mod((segment + count - trial) as nat, count as nat);
    }
}

/// The segments from one on feed their codewords.
proof fn lemma_feed_segments(
    payload: Seq<bool>,
    set: Seq<CodewordDescriptor>,
    codes: Seq<Seq<bool>>,
    targets: Seq<Codeword>,
    gathering: Gathering,
    rooms: Seq<Room>,
    rest: Seq<Seq<bool>>,
    trial: int,
    segment: int,
    from_right: bool,
) -> (fed: Gathering)
    requires
        are_codes(set, codes, targets),
        gathering.states.len() == rooms.len(),
        gathering.words.len() == rest.len() == set.len(),
        rest.len() <= rooms.len(),
        0 <= trial < rooms.len(),
        0 <= segment <= rooms.len(),
        trial_stands(payload, rooms, rest, trial, from_right),
        forall|s: int|
            0 <= s < rooms.len() ==> has_room(
                payload,
                #[trigger] gathering.states[s],
                if s < segment {
                    rooms_behind(rooms, rest, trial, from_right)[s]
                } else {
                    rooms[s]
                },
            ),
        forall|i: int|
            0 <= i < rest.len() ==> lacks_rest(
                #[trigger] gathering.words[i],
                codes[i],
                targets[i].coefficients,
                if segment_for(i, trial, rooms.len() as int) < segment {
                    rest_behind(rooms, rest, trial)[i]
                } else {
                    rest[i]
                },
            ),
    ensures
        feed_segments(payload, set, gathering, trial, segment, direction_of(from_right)) == Ok::<Gathering, HcrError>(fed),
        have_rooms(payload, fed.states, rooms_behind(rooms, rest, trial, from_right)),
        lack_rests(fed.words, codes, targets, rest_behind(rooms, rest, trial)),
    decreases rooms.len() - segment,
{
    let count = rooms.len() as int;
    let after = rooms_behind(rooms, rest, trial, from_right);
    let later = rest_behind(rooms, rest, trial);
    if segment < count {
        lemma_places(segment, trial, count);
        let index = word_for(segment, trial, count);
        if index >= rest.len() {
            assert(after[segment] == rooms[segment]);
            assert forall|i: int| 0 <= i < rest.len() implies lacks_rest(
                #[trigger] gathering.words[i],
                codes[i],
                targets[i].coefficients,
                if segment_for(i, trial, count) < segment + 1 {
                    later[i]
                } else {
                    rest[i]
                },
            ) by {
                assert(segment_for(i, trial, count) != segment);
            }
            lemma_feed_segments(
                payload,
                set,
                codes,
                targets,
                gathering,
                rooms,
                rest,
                trial,
                segment + 1,
                from_right,
            )
        } else {
            assert(has_room(payload, gathering.states[segment], rooms[segment]));
            assert(lacks_rest(gathering.words[index], codes[index], targets[index].coefficients, rest[index]));
            assert(is_code(codes[index], set[index].codebook, targets[index].coefficients));
            assert forall|k: int| 0 <= k < rooms[segment].share(rest[index]) implies payload[rooms[segment].place(
                from_right,
                k,
            )] == #[trigger] rest[index][k] by {
                assert(segment_for(index, trial, count) == segment);
            }
            let (state, word) = lemma_feed(
                payload,
                gathering.states[segment],
                rooms[segment],
                gathering.words[index],
                codes[index],
                set[index].codebook,
                targets[index].coefficients,
                rest[index],
                from_right,
            );
            let next = Gathering {
                states: gathering.states.update(segment, state),
                words: gathering.words.update(index, word),
            };
            assert(after[segment] == rooms[segment].behind(from_right, rooms[segment].share(rest[index])));
            assert(later[index] == rest[index].skip(rooms[segment].share(rest[index])));
            assert forall|s: int| 0 <= s < count implies has_room(
                payload,
                #[trigger] next.states[s],
                if s < segment + 1 {
                    after[s]
                } else {
                    rooms[s]
                },
            ) by {
                if s != segment {
                    assert(next.states[s] == gathering.states[s]);
                }
            }
            assert forall|i: int| 0 <= i < rest.len() implies lacks_rest(
                #[trigger] next.words[i],
                codes[i],
                targets[i].coefficients,
                if segment_for(i, trial, count) < segment + 1 {
                    later[i]
                } else {
                    rest[i]
                },
            ) by {
                if i != index {
                    assert(segment_for(i, trial, count) != segment);
                    assert(next.words[i] == gathering.words[i]);
                }
            }
            lemma_feed_segments(payload, set, codes, targets, next, rooms, rest, trial, segment + 1, from_right)
        }
    } else {
        assert forall|i: int| 0 <= i < rest.len() implies lacks_rest(
            #[trigger] gathering.words[i],
            codes[i],
            targets[i].coefficients,
            later[i],
        ) by {
            assert(segment_for(i, trial, count) < count);
        }
        gathering
    }
}

/// All trials of a set gather its codewords.
proof fn lemma_run_trials(
    payload: Seq<bool>,
    set: Seq<CodewordDescriptor>,
    codes: Seq<Seq<bool>>,
    targets: Seq<Codeword>,
    gathering: Gathering,
    rooms: Seq<Room>,
    rest: Seq<Seq<bool>>,
    trial: int,
    from_right: bool,
) -> (gathered: Gathering)
    requires
        are_codes(set, codes, targets),
        set.len() <= rooms.len(),
        0 <= trial <= rooms.len(),
        have_rooms(payload, gathering.states, rooms),
        lack_rests(gathering.words, codes, targets, rest),
        set_stands(payload, rooms, rest, trial, from_right),
    ensures
        run_trials(payload, set, gathering, trial, rooms.len() as int, direction_of(from_right)) == Ok::<
            Gathering,
            HcrError,
        >(gathered),
        have_rooms(payload, gathered.states, set_rooms(rooms, rest, trial, from_right)),
        set_rooms(rooms, rest, trial, from_right).len() == rooms.len(),
        gathered.words.len() == set.len(),
        forall|i: int|
            0 <= i < set.len() ==> (#[trigger] gathered.words[i]).complete && gathered.words[i].coefficients
                == targets[i].coefficients,
    decreases rooms.len() - trial,
{
    if trial < rooms.len() {
        let next = lemma_feed_segments(
            payload,
            set,
            codes,
            targets,
            gathering,
            rooms,
            rest,
            trial,
            0,
            from_right,
        );
        lemma_run_trials(
            payload,
            set,
            codes,
            targets,
            next,
            rooms_behind(rooms, rest, trial, from_right),
            rest_behind(rooms, rest, trial),
            trial + 1,
            from_right,
        )
    } else {
        assert forall|i: int| 0 <= i < set.len() implies (#[trigger] gathering.words[i]).complete
            && gathering.words[i].coefficients == targets[i].coefficients by {
            assert(rest[i].len() == 0);
        }
        gathering
    }
}

/// Codewords that are complete are collected.
proof fn lemma_collect(set: Seq<CodewordDescriptor>, words: Seq<Gathered>, targets: Seq<Codeword>, i: int, decoded: Seq<Codeword>)
    requires
        0 <= i <= set.len(),
        words.len() == set.len() == targets.len(),
        forall|k: int|
            0 <= k < set.len() ==> (#[trigger] words[k]).complete && words[k].coefficients == targets[k].coefficients,
        forall|k: int|
            0 <= k < set.len() ==> (#[trigger] targets[k]).section_index == set[k].section_index
                && targets[k].codeword_index == set[k].codeword_index,
    ensures
        collect_set(set, words, i, decoded) == Ok::<Seq<Codeword>, HcrError>(decoded + targets.skip(i)),
    decreases set.len() - i,
{
    if i < set.len() {
        assert(words[i].complete);
        assert(targets[i].section_index == set[i].section_index);
        let longer = decoded.push(
            Codeword {
                section_index: set[i].section_index,
                codeword_index: set[i].codeword_index,
                coefficients: words[i].coefficients,
            },
        );
        lemma_collect(set, words, targets, i + 1, longer);
        assert(longer + targets.skip(i + 1) =~= decoded + targets.skip(i));
    } else {
        assert(decoded + targets.skip(i) =~= decoded);
    }
}

// ---------------------------------------------------------------------------
// All codewords
// ---------------------------------------------------------------------------

/// The sets from one on decode to their codewords.
proof fn lemma_sets_decode(
    payload: Seq<bool>,
    words: Seq<CodewordDescriptor>,
    codes: Seq<Seq<bool>>,
    targets: Seq<Codeword>,
    start: int,
    states: Seq<HcrSegmentState>,
    rooms: Seq<Room>,
    from_right: bool,
)
    requires
        are_codes(words, codes, targets),
        0 <= start <= words.len(),
        rooms.len() > 0,
        have_rooms(payload, states, rooms),
        sets_stand(payload, codes, start, rooms, from_right),
        forall|k: int|
            0 <= k < words.len() ==> (#[trigger] targets[k]).section_index == words[k].section_index
                && targets[k].codeword_index == words[k].codeword_index,
    ensures
        decode_sets(payload, words, start, states, direction_of(from_right), targets.take(start)) == Ok::<
            Seq<Codeword>,
            HcrError,
        >(targets),
    decreases words.len() - start,
{
    if start < words.len() {
        let count = rooms.len() as int;
        let end = set_end(start, count, words.len() as int);
        let set = words.subrange(start, end);
        let set_codes = codes.subrange(start, end);
        let set_targets = targets.subrange(start, end);
        assert forall|i: int| 0 <= i < set.len() implies is_code(
            #[trigger] set_codes[i],
            set[i].codebook,
            set_targets[i].coefficients,
        ) by {
            assert(is_code(codes[start + i], words[start + i].codebook, targets[start + i].coefficients));
        }
        let fresh = fresh_words(set.len());
        assert forall|i: int| 0 <= i < set.len() implies lacks_rest(
            #[trigger] fresh[i],
            set_codes[i],
            set_targets[i].coefficients,
            set_codes[i],
        ) by {
            assert(is_code(set_codes[i], set[i].codebook, set_targets[i].coefficients));
            assert(set_codes[i].skip(0) =~= set_codes[i]);
            assert(set_codes[i].take(0) =~= Seq::<bool>::empty());
        }
        let gathered = lemma_run_trials(
            payload,
            set,
            set_codes,
            set_targets,
            Gathering { states, words: fresh },
            rooms,
            set_codes,
            0,
            from_right,
        );
        assert forall|k: int| 0 <= k < set.len() implies (#[trigger] set_targets[k]).section_index == set[k].section_index
            && set_targets[k].codeword_index == set[k].codeword_index by {
            assert(targets[start + k].section_index == words[start + k].section_index);
        }
        lemma_collect(set, gathered.words, set_targets, 0, targets.take(start));
        assert(targets.take(start) + set_targets.skip(0) =~= targets.take(end));
        assert(flipped(direction_of(from_right)) == direction_of(!from_right));
        lemma_sets_decode(
            payload,
            words,
            codes,
            targets,
            end,
            gathered.states,
            set_rooms(rooms, set_codes, 0, from_right),
            !from_right,
        );
    } else {
        assert(targets.take(start) =~= targets);
    }
}

/// The priority codewords are found at the left edges.
proof fn lemma_first_decode(
    payload: Seq<bool>,
    words: Seq<CodewordDescriptor>,
    codes: Seq<Seq<bool>>,
    targets: Seq<Codeword>,
    segments: Seq<HcrSegment>,
    states: Seq<HcrSegmentState>,
    i: int,
) -> (left: Seq<HcrSegmentState>)
    requires
        segments.len() <= words.len() == codes.len() == targets.len(),
        states.len() == segments.len(),
        payload.len() <= usize::MAX,
        0 <= i <= segments.len(),
        forall|k: int|
            0 <= k < words.len() ==> (#[trigger] targets[k]).section_index == words[k].section_index
                && targets[k].codeword_index == words[k].codeword_index && tuple_bits(
                words[k].codebook,
                targets[k].coefficients,
            ) == Some(codes[k]),
        forall|s: int| 0 <= s < segments.len() ==> (#[trigger] segments[s]).left_bit <= segments[s].right_bit < payload.len(),
        forall|s: int| 0 <= s < segments.len() ==> (#[trigger] codes[s]).len() <= empty_rooms(segments)[s].size(),
        forall|s: int, k: int|
            0 <= s < segments.len() && 0 <= k < codes[s].len() ==> payload[segments[s].left_bit + k] == #[trigger] codes[s][k],
        forall|s: int|
            0 <= s < segments.len() ==> has_room(
                payload,
                #[trigger] states[s],
                empty_rooms(segments)[s].behind(
                    false,
                    if s < i {
                        codes[s].len() as int
                    } else {
                        0
                    },
                ),
            ),
    ensures
        decode_first(payload, words, states, i, targets.take(i)) == Ok::<(Seq<HcrSegmentState>, Seq<Codeword>), HcrError>(
            (left, targets.take(segments.len() as int)),
        ),
        left.len() == segments.len(),
        forall|s: int|
            0 <= s < segments.len() ==> has_room(
                payload,
                #[trigger] left[s],
                empty_rooms(segments)[s].behind(false, codes[s].len() as int),
            ),
    decreases segments.len() - i,
{
    if i < segments.len() {
        let state = states[i];
        let code = codes[i];
        let room = empty_rooms(segments)[i];
        assert(has_room(payload, state, room.behind(false, 0)));
        assert(segments[i].left_bit <= segments[i].right_bit < payload.len());
        let bits = directional_bits(payload, state, HcrReadDirection::LeftToRight);
        assert(code.len() <= room.size());
        assert(bits.subrange(0, code.len() as int) =~= code) by {
            assert forall|k: int| 0 <= k < code.len() implies bits[k] == code[k] by {
                assert(payload[segments[i].left_bit + k] == codes[i][k]);
            }
        }
        let cursor = BitCursor::at(bits, 0);
        assert(stands_at(code, cursor));
        assert(tuple_bits(words[i].codebook, targets[i].coefficients) == Some(code)) by {
            assert(targets[i].section_index == words[i].section_index);
        }
        lemma_tuple_decodes(words[i].codebook, targets[i].coefficients, cursor);
        assert(decode_at_edge(payload, state, words[i].codebook, HcrReadDirection::LeftToRight) == Ok::<
            (Seq<i32>, int),
            HcrError,
        >((targets[i].coefficients, code.len() as int)));
        let advanced = state.advanced(HcrReadDirection::LeftToRight, code.len() as int);
        assert(has_room(payload, advanced, room.behind(false, code.len() as int)));
        let next = states.update(i, advanced);
        assert(targets.take(i).push(targets[i]) =~= targets.take(i + 1));
        assert(targets[i].section_index == words[i].section_index);
        assert forall|s: int| 0 <= s < segments.len() implies has_room(
            payload,
            #[trigger] next[s],
            empty_rooms(segments)[s].behind(
                false,
                if s < i + 1 {
                    codes[s].len() as int
                } else {
                    0
                },
            ),
        ) by {
            if s != i {
                assert(next[s] == states[s]);
            }
        }
        lemma_first_decode(payload, words, codes, targets, segments, next, i + 1)
    } else {
        states
    }
}

/// The bits of a codeword are not empty, and decode to it alone.
proof fn lemma_is_code(codebook: u8, coefficients: Seq<i32>)
    requires
        super::grid::codebook_priority(codebook) > 0,
        tuple_bits(codebook, coefficients) is Some,
    ensures
        is_code(tuple_bits(codebook, coefficients)->0, codebook, coefficients),
{
    let code = tuple_bits(codebook, coefficients)->0;
    let cursor = BitCursor::at(code, 0);
    assert(code.subrange(0, code.len() as int) =~= code);
    lemma_tuple_decodes(codebook, coefficients, cursor);
    if code.len() == 0 {
        assert(code =~= Seq::<bool>::empty());
        lemma_empty_lacks_bits(codebook);
    }
}

/// Whether codewords belong to the given places in order, and have bits.
pub open spec fn fill_places(words: Seq<CodewordDescriptor>, targets: Seq<Codeword>) -> bool {
    &&& targets.len() == words.len()
    &&& forall|k: int|
        0 <= k < words.len() ==> (#[trigger] targets[k]).section_index == words[k].section_index
            && targets[k].codeword_index == words[k].codeword_index && tuple_bits(
            words[k].codebook,
            targets[k].coefficients,
        ) is Some
}

/// The bits of codewords.
pub open spec fn codes_of(words: Seq<CodewordDescriptor>, targets: Seq<Codeword>) -> Seq<Seq<bool>> {
    Seq::new(words.len(), |i: int| tuple_bits(words[i].codebook, targets[i].coefficients)->0)
}

/// A payload in which codewords are laid out, in order of priority, decodes to them,
/// section by section.
pub proof fn lemma_layout_decodes(
    payload: Seq<bool>,
    side_info: HcrSideInfo,
    sections: Seq<HcrSection>,
    targets: Seq<Codeword>,
)
    requires
        sections.len() <= usize::MAX,
        side_info.reordered_spectral_bits <= payload.len() <= usize::MAX,
        first_section_error(sections, 0, true) is None,
        fill_places(codewords_by_priority(sections), targets),
        laid_out(
            payload,
            codes_of(codewords_by_priority(sections), targets),
            segmentation(
                codewords_by_priority(sections),
                side_info.reordered_spectral_bits,
                side_info.longest_codeword_bits,
            ).segments,
        ),
    ensures
        reordered_codewords(payload, side_info, sections) == Ok::<Seq<Codeword>, HcrError>(
            by_section(targets, sections.len() as int),
        ),
{
    let words = codewords_by_priority(sections);
    let total = side_info.reordered_spectral_bits;
    let segments = segmentation(words, total, side_info.longest_codeword_bits).segments;
    let codes = codes_of(words, targets);
    lemma_priority_codebooks(sections);
    lemma_segmentation(words, total, side_info.longest_codeword_bits);
    assert forall|k: int| 0 <= k < words.len() implies is_code(
        #[trigger] codes[k],
        words[k].codebook,
        targets[k].coefficients,
    ) by {
        assert(targets[k].section_index == words[k].section_index);
        assert(word_has_codebook(sections, words[k]));
        lemma_is_code(words[k].codebook, targets[k].coefficients);
    }
    assert forall|s: int| 0 <= s < segments.len() implies (#[trigger] segments[s]).left_bit <= segments[s].right_bit
        < payload.len() by {
        assert(segment_of(segments[s], words[s], total));
    }
    let states = whole_segments(segments);
    let rooms = empty_rooms(segments);
    assert forall|s: int| 0 <= s < segments.len() implies has_room(
        payload,
        #[trigger] states[s],
        rooms[s].behind(false, 0),
    ) by {
        assert(segments[s].left_bit <= segments[s].right_bit < payload.len());
    }
    assert(targets.take(0) =~= Seq::<Codeword>::empty());
    let left = lemma_first_decode(payload, words, codes, targets, segments, states, 0);
    let free = Seq::new(rooms.len(), |s: int| rooms[s].behind(false, codes[s].len() as int));
    assert(have_rooms(payload, left, free));
    lemma_sets_decode(payload, words, codes, targets, segments.len() as int, left, free, true);
}

/// A payload in which codewords are laid out decodes to those codewords, sorted by
/// section and index: nothing is lost, and nothing is changed.
pub proof fn lemma_layout_read_back(
    payload: Seq<bool>,
    side_info: HcrSideInfo,
    sections: Seq<HcrSection>,
    given: Seq<Codeword>,
)
    requires
        sections.len() <= usize::MAX,
        side_info.reordered_spectral_bits <= payload.len() <= usize::MAX,
        first_section_error(sections, 0, true) is None,
        one_for_each_place(sections, given),
        all_coded(codewords_by_priority(sections), given),
        laid_out(
            payload,
            codes_of(codewords_by_priority(sections), given_by_priority(codewords_by_priority(sections), given)),
            segmentation(
                codewords_by_priority(sections),
                side_info.reordered_spectral_bits,
                side_info.longest_codeword_bits,
            ).segments,
        ),
    ensures
        reordered_codewords(payload, side_info, sections) matches Ok(list) && in_order(list) && list.to_multiset()
            == given.to_multiset() && list.len() == given.len(),
{
    let words = codewords_by_priority(sections);
    let targets = given_by_priority(words, given);
    assert forall|k: int| 0 <= k < words.len() implies (#[trigger] targets[k]).section_index == words[k].section_index
        && targets[k].codeword_index == words[k].codeword_index && tuple_bits(words[k].codebook, targets[k].coefficients)
        is Some by {
        assert(find_codeword(given, words[k].section_index, words[k].codeword_index, 0) is Some);
    }
    lemma_layout_decodes(payload, side_info, sections, targets);
    lemma_sorted_is_given(sections, given);
}

/// Two codewords share a segment: the first one stands at its left edge, and the
/// second one at its right edge, from the last bit backwards. Whatever lies between
/// them, decoding gives exactly the coefficients of both.
pub proof fn lemma_two_codewords_share_a_segment(
    payload: Seq<bool>,
    side_info: HcrSideInfo,
    sections: Seq<HcrSection>,
    first: Seq<i32>,
    second: Seq<i32>,
)
    requires
        sections.len() <= usize::MAX,
        side_info.reordered_spectral_bits <= payload.len() <= usize::MAX,
        first_section_error(sections, 0, true) is None,
        codewords_by_priority(sections).len() == 2,
        segmentation(
            codewords_by_priority(sections),
            side_info.reordered_spectral_bits,
            side_info.longest_codeword_bits,
        ).segments.len() == 1,
        ({
            let words = codewords_by_priority(sections);
            let segment = segmentation(
                words,
                side_info.reordered_spectral_bits,
                side_info.longest_codeword_bits,
            ).segments[0];
            &&& tuple_bits(words[0].codebook, first) matches Some(a) && tuple_bits(words[1].codebook, second) matches Some(
                b,
            ) && a.len() + b.len() <= segment.right_bit - segment.left_bit + 1 && (forall|k: int|
                0 <= k < a.len() ==> payload[segment.left_bit + k] == #[trigger] a[k]) && (forall|k: int|
                0 <= k < b.len() ==> payload[segment.right_bit - k] == #[trigger] b[k])
        }),
    ensures
        ({
            let words = codewords_by_priority(sections);
            reordered_codewords(payload, side_info, sections) == Ok::<Seq<Codeword>, HcrError>(
                by_section(
                    seq![
                        Codeword {
                            section_index: words[0].section_index,
                            codeword_index: words[0].codeword_index,
                            coefficients: first,
                        },
                        Codeword {
                            section_index: words[1].section_index,
                            codeword_index: words[1].codeword_index,
                            coefficients: second,
                        },
                    ],
                    sections.len() as int,
                ),
            )
        }),
{
    let words = codewords_by_priority(sections);
    let segments = segmentation(words, side_info.reordered_spectral_bits, side_info.longest_codeword_bits).segments;
    let targets = seq![
        Codeword {
            section_index: words[0].section_index,
            codeword_index: words[0].codeword_index,
            coefficients: first,
        },
        Codeword {
            section_index: words[1].section_index,
            codeword_index: words[1].codeword_index,
            coefficients: second,
        },
    ];
    let codes = codes_of(words, targets);
    let a = tuple_bits(words[0].codebook, first)->0;
    let b = tuple_bits(words[1].codebook, second)->0;
    assert(codes =~= seq![a, b]);
    let rooms = empty_rooms(segments);
    let free = Seq::new(rooms.len(), |s: int| rooms[s].behind(false, codes[s].len() as int));
    let set = codes.subrange(1, 2);
    assert(set =~= seq![b]);
    assert(trial_stands(payload, free, set, 0, true));
    let later = rest_behind(free, set, 0);
    assert(later[0].len() == 0);
    reveal_with_fuel(set_stands, 2);
    assert(set_stands(payload, free, set, 0, true));
    reveal_with_fuel(sets_stand, 2);
    assert(sets_stand(payload, codes, 1, free, true));
    assert(laid_out(payload, codes, segments));
    lemma_layout_decodes(payload, side_info, sections, targets);
}

/// The priority pass finds the first codewords at the left edges of their segments, with
/// the bits that they cost, whatever lies behind them.
pub proof fn lemma_priority_words_found(
    payload: Seq<bool>,
    segments: Seq<HcrSegment>,
    coefficients: Seq<Seq<i32>>,
    i: int,
    decoded: Seq<PriorityCodeword>,
)
    requires
        payload.len() <= usize::MAX,
        coefficients.len() == segments.len(),
        0 <= i <= segments.len(),
        forall|s: int|
            0 <= s < segments.len() ==> (#[trigger] segments[s]).left_bit <= segments[s].right_bit < payload.len(),
        forall|s: int|
            0 <= s < segments.len() ==> (tuple_bits((#[trigger] segments[s]).codebook, coefficients[s]) matches Some(code)
                && code.len() <= segments[s].right_bit + 1 - segments[s].left_bit && payload.subrange(
                segments[s].left_bit as int,
                segments[s].left_bit + code.len(),
            ) == code),
    ensures
        decode_priority(payload, segments, i, decoded) matches Ok(list) && list.len() == decoded.len() + segments.len() - i
            && (forall|k: int| 0 <= k < decoded.len() ==> #[trigger] list[k] == decoded[k]) && forall|s: int|
            i <= s < segments.len() ==> {
                let bits = tuple_bits((#[trigger] segments[s]).codebook, coefficients[s])->0.len();
                list[decoded.len() + s - i] == (PriorityCodeword {
                    section_index: segments[s].section_index,
                    codeword_index: segments[s].codeword_index,
                    coefficients: coefficients[s],
                    consumed_bits: bits as usize,
                    remaining_left_bit: (segments[s].left_bit + bits) as usize,
                })
            },
    decreases segments.len() - i,
{
    if i < segments.len() {
        let segment = segments[i];
        let code = tuple_bits(segment.codebook, coefficients[i])->0;
        assert(segments[i].left_bit <= segments[i].right_bit < payload.len());
        let bits = payload.subrange(segment.left_bit as int, segment.right_bit + 1);
        let cursor = BitCursor::at(bits, 0);
        assert(bits.subrange(0, code.len() as int) =~= payload.subrange(
            segment.left_bit as int,
            segment.left_bit + code.len(),
        ));
        assert(stands_at(code, cursor));
        lemma_tuple_decodes(segment.codebook, coefficients[i], cursor);
        let word = PriorityCodeword {
            section_index: segment.section_index,
            codeword_index: segment.codeword_index,
            coefficients: coefficients[i],
            consumed_bits: code.len() as usize,
            remaining_left_bit: (segment.left_bit + code.len()) as usize,
        };
        lemma_priority_words_found(payload, segments, coefficients, i + 1, decoded.push(word));
        let list = decode_priority(payload, segments, i, decoded)->Ok_0;
        assert(list == decode_priority(payload, segments, i + 1, decoded.push(word))->Ok_0);
        assert(list[decoded.len() as int] == decoded.push(word)[decoded.len() as int]);
        assert forall|k: int| 0 <= k < decoded.len() implies #[trigger] list[k] == decoded[k] by {
            assert(list[k] == decoded.push(word)[k]);
        }
    }
}

} // verus!
