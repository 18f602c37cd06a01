//! Reading a segment from either edge.

use vstd::prelude::*;

use crate::bits::{bits_of, padding, BitCursor, BitReader, BitWriter};
use crate::spectral::{decode_spectral_tuple, decode_tuple};

use super::grid::HcrSegment;
use super::side_info::HcrError;

verus! {

/// The edge from which a segment is read.
#[derive(Debug, Clone, Copy, PartialEq, Eq, Structural)]
pub enum HcrReadDirection {
    LeftToRight,
    RightToLeft,
}

/// What is left of a segment.
#[derive(Debug, Clone, Copy, PartialEq, Eq, Structural)]
pub struct HcrSegmentState {
    pub left_bit: usize,
    pub right_bit: usize,
    pub remaining_bits: usize,
}

impl HcrSegmentState {
    /// Whether the edges and the count agree: where bits remain, they are those
    /// from the left to the right edge.
    pub open spec fn well_formed(self) -> bool {
        self.right_bit < usize::MAX && (self.remaining_bits == 0 || (self.left_bit <= self.right_bit
            && self.remaining_bits == self.right_bit - self.left_bit + 1))
    }

    /// The state after `count` bits were taken from an edge.
    pub open spec fn advanced(self, direction: HcrReadDirection, count: int) -> HcrSegmentState {
        match direction {
            HcrReadDirection::LeftToRight => HcrSegmentState {
                left_bit: (self.left_bit + count) as usize,
                right_bit: self.right_bit,
                remaining_bits: (self.remaining_bits - count) as usize,
            },
            HcrReadDirection::RightToLeft => HcrSegmentState {
                left_bit: self.left_bit,
                right_bit: if self.right_bit >= count {
                    (self.right_bit - count) as usize
                } else {
                    0
                },
                remaining_bits: (self.remaining_bits - count) as usize,
            },
        }
    }

    /// The state after `count` bits were put back at an edge.
    pub open spec fn restored(self, direction: HcrReadDirection, count: int) -> HcrSegmentState {
        match direction {
            HcrReadDirection::LeftToRight => HcrSegmentState {
                left_bit: (self.left_bit - count) as usize,
                right_bit: self.right_bit,
                remaining_bits: (self.remaining_bits + count) as usize,
            },
            HcrReadDirection::RightToLeft => HcrSegmentState {
                left_bit: self.left_bit,
                right_bit: (self.right_bit + count) as usize,
                remaining_bits: (self.remaining_bits + count) as usize,
            },
        }
    }

    /// The state of a segment from which nothing was taken.
    pub open spec fn whole(segment: HcrSegment) -> HcrSegmentState {
        HcrSegmentState {
            left_bit: segment.left_bit,
            right_bit: segment.right_bit,
            remaining_bits: (segment.right_bit - segment.left_bit + 1) as usize,
        }
    }

    /// The state of a segment from which nothing was taken.
    pub fn from_segment(segment: HcrSegment) -> (state: HcrSegmentState)
        requires
            segment.left_bit <= segment.right_bit < usize::MAX,
        ensures
            state == HcrSegmentState::whole(segment),
            state.well_formed(),
    {
        HcrSegmentState {
            left_bit: segment.left_bit,
            right_bit: segment.right_bit,
            remaining_bits: segment.width(),
        }
    }

    /// The number of bits that are left.
    pub fn remaining_bits(self) -> (count: usize)
        ensures
            count == self.remaining_bits,
    {
        self.remaining_bits
    }
}

/// Putting back what was taken gives the state before, unless the first bit of
/// the payload was taken from the right: its position stays at zero then.
pub proof fn lemma_restore_undoes_take(state: HcrSegmentState, direction: HcrReadDirection, count: int)
    requires
        state.well_formed(),
        0 <= count <= state.remaining_bits,
        direction == HcrReadDirection::RightToLeft ==> count <= state.right_bit,
    ensures
        state.advanced(direction, count).restored(direction, count) == state,
{
}

/// The bits that are left of a segment, in reading order.
pub open spec fn directional_bits(payload: Seq<bool>, state: HcrSegmentState, direction: HcrReadDirection) -> Seq<bool> {
    match direction {
        HcrReadDirection::LeftToRight => Seq::new(
            state.remaining_bits as nat,
            |k: int| payload[state.left_bit + k],
        ),
        HcrReadDirection::RightToLeft => Seq::new(
            state.remaining_bits as nat,
            |k: int| payload[state.right_bit - k],
        ),
    }
}

/// The error of an access to a payload bit that there is not.
pub open spec fn too_short(payload: Seq<bool>, index: usize) -> HcrError {
    HcrError::PayloadTooShort { needed_bits: (index + 1) as usize, available_bits: payload.len() as usize }
}

/// One payload bit.
fn payload_bit(payload: &[u8], index: usize) -> (bit: bool)
    requires
        index < payload@.len() * 8,
    ensures
        bit == bits_of(payload@)[index as int],
{
    let byte: u8 = payload[index / 8];
    let shift: u8 = 7 - (index % 8) as u8;
    assert(((byte >> shift) & 1u8 == 1u8) == ((byte >> shift) & 1u8 != 0u8)) by (bit_vector);
    (byte >> shift) & 1 != 0
}

/// Copies what is left of a segment into bytes, in reading order.
pub fn copy_directional_bits(source: &[u8], state: HcrSegmentState, direction: HcrReadDirection) -> (result: Result<
    Vec<u8>,
    HcrError,
>)
    requires
        source@.len() * 8 <= usize::MAX,
        state.well_formed(),
    ensures
        match result {
            Ok(bytes) => state.right_bit < source@.len() * 8 && bits_of(bytes@) == directional_bits(
                bits_of(source@),
                state,
                direction,
            ) + padding(state.remaining_bits as nat) && bytes@.len() == (state.remaining_bits + 7) / 8,
            Err(error) => state.right_bit >= source@.len() * 8 && error == too_short(bits_of(source@), state.right_bit),
        },
{
    let length: usize = state.remaining_bits();
    let available: usize = source.len() * 8;
    if available <= state.right_bit {
        return Err(HcrError::PayloadTooShort { needed_bits: state.right_bit + 1, available_bits: available });
    }
    let ghost wanted = directional_bits(bits_of(source@), state, direction);
    let mut writer = BitWriter::new();
    let mut offset: usize = 0;
    assert(wanted.take(0) =~= Seq::<bool>::empty());
    while offset < length
        invariant
            offset <= length,
            length == state.remaining_bits,
            state.well_formed(),
            state.right_bit < source@.len() * 8,
            wanted == directional_bits(bits_of(source@), state, direction),
            writer@ == wanted.take(offset as int),
        decreases length - offset,
    {
        let index: usize = match direction {
            HcrReadDirection::LeftToRight => state.left_bit + offset,
            HcrReadDirection::RightToLeft => state.right_bit - offset,
        };
        writer.write_bool(payload_bit(source, index));
        assert(wanted.take(offset + 1) =~= wanted.take(offset as int).push(wanted[offset as int]));
        offset = offset + 1;
    }
    assert(wanted.take(length as int) =~= wanted);
    Ok(writer.finish())
}

/// Copies a range of payload bits into bytes.
pub fn copy_bit_range(source: &[u8], start: usize, length: usize) -> (bytes: Vec<u8>)
    requires
        start + length <= source@.len() * 8 <= usize::MAX,
    ensures
        bits_of(bytes@) == bits_of(source@).subrange(start as int, start + length) + padding(length as nat),
        bytes@.len() == (length + 7) / 8,
{
    let ghost bits = bits_of(source@);
    let mut writer = BitWriter::new();
    let mut offset: usize = 0;
    assert(bits.subrange(start as int, start as int) =~= Seq::<bool>::empty());
    while offset < length
        invariant
            offset <= length,
            start + length <= source@.len() * 8 <= usize::MAX,
            bits == bits_of(source@),
            writer@ == bits.subrange(start as int, start + offset),
        decreases length - offset,
    {
        writer.write_bool(payload_bit(source, start + offset));
        assert(bits.subrange(start as int, start + offset + 1) =~= bits.subrange(start as int, start + offset).push(
            bits[start + offset],
        ));
        offset = offset + 1;
    }
    writer.finish()
}

/// Decoding one codeword from an edge of a segment: the coefficients, the number
/// of bits that they took and the state behind them.
pub open spec fn decode_at_edge(
    payload: Seq<bool>,
    state: HcrSegmentState,
    codebook: u8,
    direction: HcrReadDirection,
) -> Result<(Seq<i32>, int), HcrError> {
    if state.remaining_bits == 0 {
        Err(HcrError::EmptySegment)
    } else if state.right_bit >= payload.len() {
        Err(too_short(payload, state.right_bit))
    } else {
        match decode_tuple(codebook, BitCursor::at(directional_bits(payload, state, direction), 0)) {
            (Ok(coefficients), next) => Ok((coefficients, next.pos)),
            (Err(error), _) => Err(HcrError::Spectral(error)),
        }
    }
}

/// Decodes one codeword from an edge of a segment.
pub fn decode_segment_codeword(
    payload: &[u8],
    state: &mut HcrSegmentState,
    codebook: u8,
    direction: HcrReadDirection,
) -> (result: Result<(Vec<i32>, usize), HcrError>)
    requires
        payload@.len() * 8 <= usize::MAX - 8,
        old(state).well_formed(),
    ensures
        final(state).well_formed(),
        match decode_at_edge(bits_of(payload@), *old(state), codebook, direction) {
            Ok((coefficients, consumed)) => {
                &&& result matches Ok((values, count)) && values@ == coefficients && count == consumed
                &&& 0 <= consumed <= old(state).remaining_bits
                &&& *final(state) == old(state).advanced(direction, consumed)
            },
            Err(error) => result == Err::<(Vec<i32>, usize), HcrError>(error) && *final(state) == *old(state),
        },
{
    let available: usize = state.remaining_bits();
    if available == 0 {
        return Err(HcrError::EmptySegment);
    }
    let packed: Vec<u8> = match copy_directional_bits(payload, *state, direction) {
        Ok(packed) => packed,
        Err(error) => {
            return Err(error);
        },
    };
    let ghost wanted = directional_bits(bits_of(payload@), *state, direction);
    let mut reader = match BitReader::with_bit_len(packed.as_slice(), available) {
        Ok(reader) => reader,
        Err(error) => {
            return Err(HcrError::Bit(error));
        },
    };
    assert(bits_of(packed@).take(available as int) =~= wanted);
    let coefficients: Vec<i32> = match decode_spectral_tuple(&mut reader, codebook) {
        Ok(coefficients) => coefficients,
        Err(error) => {
            return Err(HcrError::Spectral(error));
        },
    };
    proof {
        crate::spectral::lemma_decode_frame(codebook, BitCursor::at(wanted, 0));
    }
    let consumed: usize = reader.bits_read();
    match direction {
        HcrReadDirection::LeftToRight => {
            state.left_bit = state.left_bit + consumed;
        },
        HcrReadDirection::RightToLeft => {
            state.right_bit = if state.right_bit >= consumed {
                state.right_bit - consumed
            } else {
                0
            };
        },
    }
    state.remaining_bits = state.remaining_bits - consumed;
    Ok((coefficients, consumed))
}

/// Taking one bit from an edge of a segment.
pub open spec fn take_bit(payload: Seq<bool>, state: HcrSegmentState, direction: HcrReadDirection) -> Result<
    (bool, HcrSegmentState),
    HcrError,
> {
    let index = match direction {
        HcrReadDirection::LeftToRight => state.left_bit,
        HcrReadDirection::RightToLeft => state.right_bit,
    };
    if state.remaining_bits == 0 {
        Err(HcrError::EmptySegment)
    } else if index >= payload.len() {
        Err(too_short(payload, index))
    } else {
        Ok((payload[index as int], state.advanced(direction, 1)))
    }
}

/// Takes one bit from an edge of a segment.
pub fn take_segment_bit(payload: &[u8], state: &mut HcrSegmentState, direction: HcrReadDirection) -> (result: Result<
    bool,
    HcrError,
>)
    requires
        payload@.len() * 8 <= usize::MAX,
        old(state).well_formed(),
    ensures
        final(state).well_formed(),
        match take_bit(bits_of(payload@), *old(state), direction) {
            Ok((bit, next)) => result == Ok::<bool, HcrError>(bit) && *final(state) == next,
            Err(error) => result == Err::<bool, HcrError>(error) && *final(state) == *old(state),
        },
{
    if state.remaining_bits() == 0 {
        return Err(HcrError::EmptySegment);
    }
    let index: usize = match direction {
        HcrReadDirection::LeftToRight => state.left_bit,
        HcrReadDirection::RightToLeft => state.right_bit,
    };
    let available: usize = payload.len() * 8;
    if index >= available {
        return Err(HcrError::PayloadTooShort { needed_bits: index + 1, available_bits: available });
    }
    match direction {
        HcrReadDirection::LeftToRight => {
            state.left_bit = state.left_bit + 1;
        },
        HcrReadDirection::RightToLeft => {
            state.right_bit = if state.right_bit >= 1 {
                state.right_bit - 1
            } else {
                0
            };
        },
    }
    state.remaining_bits = state.remaining_bits - 1;
    Ok(payload_bit(payload, index))
}

/// Puts bits back at an edge of a segment.
pub fn restore_segment_bits(state: &mut HcrSegmentState, direction: HcrReadDirection, count: usize)
    requires
        direction == HcrReadDirection::LeftToRight ==> count <= old(state).left_bit,
        direction == HcrReadDirection::RightToLeft ==> old(state).right_bit + count <= usize::MAX,
        old(state).remaining_bits + count <= usize::MAX,
    ensures
        *final(state) == old(state).restored(direction, count as int),
{
    match direction {
        HcrReadDirection::LeftToRight => {
            state.left_bit = state.left_bit - count;
        },
        HcrReadDirection::RightToLeft => {
            state.right_bit = state.right_bit + count;
        },
    }
    state.remaining_bits = state.remaining_bits + count;
}

/// What is left of a segment is read from the left as it stands, and from the right backwards.
pub proof fn lemma_directions_mirror(payload: Seq<bool>, state: HcrSegmentState)
    requires
        state.remaining_bits > 0,
        state.left_bit + state.remaining_bits == state.right_bit + 1,
        state.right_bit < payload.len(),
    ensures
        directional_bits(payload, state, HcrReadDirection::LeftToRight) == payload.subrange(
            state.left_bit as int,
            state.right_bit + 1,
        ),
        directional_bits(payload, state, HcrReadDirection::RightToLeft) == payload.subrange(
            state.left_bit as int,
            state.right_bit + 1,
        ).reverse(),
{
    let left = payload.subrange(state.left_bit as int, state.right_bit + 1);
    assert(directional_bits(payload, state, HcrReadDirection::LeftToRight) =~= left);
    assert(directional_bits(payload, state, HcrReadDirection::RightToLeft) =~= left.reverse());
}

/// A bit that is taken from an edge is the first of those that are read from it, and leaves the
/// others.
pub proof fn lemma_taken_is_first(payload: Seq<bool>, state: HcrSegmentState, direction: HcrReadDirection)
    requires
        state.remaining_bits > 0,
        state.left_bit + state.remaining_bits == state.right_bit + 1,
        state.right_bit < payload.len(),
    ensures
        take_bit(payload, state, direction) matches Ok((bit, next)) && {
            &&& bit == directional_bits(payload, state, direction)[0]
            &&& next.remaining_bits == state.remaining_bits - 1
            &&& next.remaining_bits > 0 ==> directional_bits(payload, next, direction) == directional_bits(
                payload,
                state,
                direction,
            ).skip(1)
        },
{
    let (bit, next) = take_bit(payload, state, direction)->Ok_0;
    if next.remaining_bits > 0 {
        assert(directional_bits(payload, next, direction) =~= directional_bits(payload, state, direction).skip(1));
    }
}

} // verus!
