//! Side information of an individual channel stream: window sequence and shape,
//! the transmitted bands and the grouping of short windows.

use vstd::arithmetic::power2::lemma2_to64;
use vstd::prelude::*;

use crate::bits::{
    lemma_stands_bit, lemma_stands_field, lemma_value_bits_index, lemma_value_bits_len, stands_at, value_bits, BitCursor,
    BitError, BitReader,
};
use crate::text::{decimal_text, literal, push_decimal, push_literal};

verus! {

/// The order of window lengths in a frame.
#[derive(Debug, Clone, Copy, PartialEq, Eq, Structural)]
pub enum WindowSequence {
    OnlyLong,
    LongStart,
    EightShort,
    LongStop,
}

impl WindowSequence {
    /// The sequence that a two-bit field stands for.
    pub open spec fn of_bits(bits: int) -> WindowSequence {
        if bits % 4 == 0 {
            WindowSequence::OnlyLong
        } else if bits % 4 == 1 {
            WindowSequence::LongStart
        } else if bits % 4 == 2 {
            WindowSequence::EightShort
        } else {
            WindowSequence::LongStop
        }
    }

    /// The field of a sequence.
    pub open spec fn to_bits(self) -> int {
        match self {
            WindowSequence::OnlyLong => 0,
            WindowSequence::LongStart => 1,
            WindowSequence::EightShort => 2,
            WindowSequence::LongStop => 3,
        }
    }

    /// The name of a sequence.
    pub open spec fn name(self) -> Seq<char> {
        match self {
            WindowSequence::OnlyLong => "OnlyLong"@,
            WindowSequence::LongStart => "LongStart"@,
            WindowSequence::EightShort => "EightShort"@,
            WindowSequence::LongStop => "LongStop"@,
        }
    }

    /// Reads a sequence from the low two bits of a field.
    pub fn from_bits(bits: u8) -> (sequence: WindowSequence)
        ensures
            sequence == WindowSequence::of_bits(bits as int),
    {
        match bits % 4 {
            0 => WindowSequence::OnlyLong,
            1 => WindowSequence::LongStart,
            2 => WindowSequence::EightShort,
            _ => WindowSequence::LongStop,
        }
    }

    /// The two-bit field of this sequence.
    pub fn bits(self) -> (bits: u8)
        ensures
            bits == self.to_bits(),
            bits < 4,
    {
        match self {
            WindowSequence::OnlyLong => 0,
            WindowSequence::LongStart => 1,
            WindowSequence::EightShort => 2,
            WindowSequence::LongStop => 3,
        }
    }

    /// Appends the name of this sequence.
    pub fn push_name(self, message: &mut String)
        ensures
            final(message)@ == old(message)@ + self.name(),
    {
        match self {
            WindowSequence::OnlyLong => push_literal(message, "OnlyLong"),
            WindowSequence::LongStart => push_literal(message, "LongStart"),
            WindowSequence::EightShort => push_literal(message, "EightShort"),
            WindowSequence::LongStop => push_literal(message, "LongStop"),
        }
    }

    /// Whether the frame holds one long window.
    pub fn is_long(self) -> (long: bool)
        ensures
            long == (self != WindowSequence::EightShort),
    {
        match self {
            WindowSequence::EightShort => false,
            _ => true,
        }
    }
}

/// The field of a sequence reads back as the sequence.
pub proof fn lemma_window_sequence_roundtrip(sequence: WindowSequence)
    ensures
        WindowSequence::of_bits(sequence.to_bits()) == sequence,
{
}

/// The slope of a window.
#[derive(Debug, Clone, Copy, PartialEq, Eq, Structural)]
pub enum WindowShape {
    Sine,
    Kbd,
    /// The low-overlap sine slope of low-delay streams. It has the same one-bit
    /// field as `Kbd`; the audio object type tells them apart.
    LowOverlap,
}

impl WindowShape {
    /// The shape that a flag stands for.
    pub open spec fn of_bit(bit: bool) -> WindowShape {
        if bit {
            WindowShape::Kbd
        } else {
            WindowShape::Sine
        }
    }

    /// The name of a shape.
    pub open spec fn name(self) -> Seq<char> {
        match self {
            WindowShape::Sine => "Sine"@,
            WindowShape::Kbd => "Kbd"@,
            WindowShape::LowOverlap => "LowOverlap"@,
        }
    }

    /// Appends the name of this shape.
    pub fn push_name(self, message: &mut String)
        ensures
            final(message)@ == old(message)@ + self.name(),
    {
        match self {
            WindowShape::Sine => push_literal(message, "Sine"),
            WindowShape::Kbd => push_literal(message, "Kbd"),
            WindowShape::LowOverlap => push_literal(message, "LowOverlap"),
        }
    }

    /// Reads a shape from its flag.
    pub fn from_bit(bit: bool) -> (shape: WindowShape)
        ensures
            shape == WindowShape::of_bit(bit),
    {
        if bit {
            WindowShape::Kbd
        } else {
            WindowShape::Sine
        }
    }

    /// The flag of this shape.
    pub fn bit(self) -> (bit: bool)
        ensures
            bit == (self != WindowShape::Sine),
    {
        match self {
            WindowShape::Sine => false,
            WindowShape::Kbd | WindowShape::LowOverlap => true,
        }
    }
}

/// The flag of a shape reads back as the shape, except that the low-overlap
/// slope reads back as `Kbd`.
pub proof fn lemma_window_shape_roundtrip(shape: WindowShape)
    ensures
        WindowShape::of_bit(shape != WindowShape::Sine) == (if shape == WindowShape::LowOverlap {
            WindowShape::Kbd
        } else {
            shape
        }),
{
}

/// The largest numbers of bands that a stream may transmit.
#[derive(Debug, Clone, Copy, PartialEq, Eq, Structural)]
pub struct IcsLimits {
    pub long_sfb: u8,
    pub short_sfb: u8,
}

impl IcsLimits {
    /// The largest band counts over all sampling rates at frames of 1024.
    pub fn aac_lc_max() -> (limits: IcsLimits)
        ensures
            limits == (IcsLimits { long_sfb: 51, short_sfb: 15 }),
    {
        IcsLimits { long_sfb: 51, short_sfb: 15 }
    }
}

/// The parsed side information.
#[derive(Debug, PartialEq, Eq)]
pub struct IcsInfo {
    pub window_sequence: WindowSequence,
    pub window_shape: WindowShape,
    pub max_sfb: u8,
    pub total_sfb: u8,
    pub predictor_data_present: bool,
    pub scale_factor_grouping: u8,
    pub window_group_lengths: Vec<u8>,
    pub bits_read: usize,
}

/// The side information with its group lengths as a sequence.
pub struct IcsFields {
    pub window_sequence: WindowSequence,
    pub window_shape: WindowShape,
    pub max_sfb: u8,
    pub total_sfb: u8,
    pub predictor_data_present: bool,
    pub scale_factor_grouping: u8,
    pub window_group_lengths: Seq<u8>,
    pub bits_read: usize,
}

impl View for IcsInfo {
    type V = IcsFields;

    open spec fn view(&self) -> IcsFields {
        IcsFields {
            window_sequence: self.window_sequence,
            window_shape: self.window_shape,
            max_sfb: self.max_sfb,
            total_sfb: self.total_sfb,
            predictor_data_present: self.predictor_data_present,
            scale_factor_grouping: self.scale_factor_grouping,
            window_group_lengths: self.window_group_lengths@,
            bits_read: self.bits_read,
        }
    }
}

impl Clone for IcsInfo {
    fn clone(&self) -> (copy: IcsInfo)
        ensures
            copy@ == self@,
    {
        let window_group_lengths = self.window_group_lengths.clone();
        assert(window_group_lengths@ =~= self.window_group_lengths@);
        IcsInfo {
            window_sequence: self.window_sequence,
            window_shape: self.window_shape,
            max_sfb: self.max_sfb,
            total_sfb: self.total_sfb,
            predictor_data_present: self.predictor_data_present,
            scale_factor_grouping: self.scale_factor_grouping,
            window_group_lengths,
            bits_read: self.bits_read,
        }
    }
}

/// Failures of side-information parsing.
#[derive(Debug, Clone, Copy, PartialEq, Eq, Structural)]
pub enum IcsError {
    Bit(BitError),
    MaxSfbOutOfRange { max_sfb: u8, total_sfb: u8 },
    PredictionUnsupported,
    LowDelayWindowSequence(WindowSequence),
}

impl From<BitError> for IcsError {
    fn from(value: BitError) -> (error: IcsError) {
        IcsError::Bit(value)
    }
}

impl vstd::std_specs::convert::FromSpecImpl<BitError> for IcsError {
    open spec fn obeys_from_spec() -> bool {
        true
    }

    open spec fn from_spec(value: BitError) -> IcsError {
        IcsError::Bit(value)
    }
}

impl IcsError {
    /// The diagnostic of this error.
    pub open spec fn message(self) -> Seq<char> {
        match self {
            IcsError::Bit(error) => error.message(),
            IcsError::MaxSfbOutOfRange { max_sfb, total_sfb } => "ICS max_sfb "@ + decimal_text(max_sfb as nat)
                + " exceeds total_sfb "@ + decimal_text(total_sfb as nat),
            IcsError::PredictionUnsupported => "AAC prediction data is not supported"@,
            IcsError::LowDelayWindowSequence(sequence) => "AAC-LD requires ONLY_LONG, found "@ + sequence.name(),
        }
    }

    /// Renders the diagnostic of this error.
    pub fn to_string(&self) -> (message: String)
        ensures
            message@ == self.message(),
    {
        match self {
            IcsError::Bit(error) => error.to_string(),
            IcsError::MaxSfbOutOfRange { max_sfb, total_sfb } => {
                let mut message = literal("ICS max_sfb ");
                push_decimal(&mut message, *max_sfb as u64);
                push_literal(&mut message, " exceeds total_sfb ");
                push_decimal(&mut message, *total_sfb as u64);
                message
            },
            IcsError::PredictionUnsupported => literal("AAC prediction data is not supported"),
            IcsError::LowDelayWindowSequence(sequence) => {
                let mut message = literal("AAC-LD requires ONLY_LONG, found ");
                sequence.push_name(&mut message);
                message
            },
        }
    }
}

/// The lengths of the window groups that join flags make: a set flag joins its
/// window to the group before it, a clear one starts a group.
pub open spec fn group_lengths(joins: Seq<bool>) -> Seq<u8>
    decreases joins.len(),
{
    if joins.len() == 0 {
        seq![1u8]
    } else {
        let before = group_lengths(joins.drop_last());
        if joins.last() {
            before.update(before.len() - 1, (before.last() + 1) as u8)
        } else {
            before.push(1)
        }
    }
}

/// The sum of a sequence of lengths.
pub open spec fn total_length(lengths: Seq<u8>) -> int
    decreases lengths.len(),
{
    if lengths.len() == 0 {
        0
    } else {
        total_length(lengths.drop_last()) + lengths.last()
    }
}

/// The groups of a frame are not empty and hold all its windows: one more than
/// there are flags.
pub proof fn lemma_groups_hold_all_windows(joins: Seq<bool>)
    requires
        joins.len() <= 7,
    ensures
        total_length(group_lengths(joins)) == joins.len() + 1,
        1 <= group_lengths(joins).len() <= joins.len() + 1,
        forall|i: int| 0 <= i < group_lengths(joins).len() ==> 1 <= #[trigger] group_lengths(joins)[i] <= joins.len() + 1,
    decreases joins.len(),
{
    if joins.len() == 0 {
        assert(group_lengths(joins) =~= seq![1u8]);
        assert(seq![1u8].drop_last() =~= Seq::<u8>::empty());
        assert(total_length(seq![1u8].drop_last()) == 0);
    } else {
        lemma_groups_hold_all_windows(joins.drop_last());
        let before = group_lengths(joins.drop_last());
        if joins.last() {
            let after = before.update(before.len() - 1, (before.last() + 1) as u8);
            assert(after.drop_last() =~= before.drop_last());
        } else {
            assert(before.push(1).drop_last() =~= before);
        }
    }
}

/// Turns the seven grouping flags into group lengths.
pub fn grouping_to_lengths(scale_factor_grouping: u8) -> (lengths: Vec<u8>)
    ensures
        lengths@ == group_lengths(value_bits(scale_factor_grouping as nat, 7)),
        total_length(lengths@) == 8,
{
    let ghost joins = value_bits(scale_factor_grouping as nat, 7);
    proof {
        lemma_value_bits_len(scale_factor_grouping as nat, 7);
    }
    let mut lengths: Vec<u8> = Vec::new();
    lengths.push(1);
    assert(lengths@ =~= group_lengths(joins.take(0)));
    let mut index: u8 = 0;
    while index < 7
        invariant
            index <= 7,
            joins == value_bits(scale_factor_grouping as nat, 7),
            joins.len() == 7,
            lengths@ == group_lengths(joins.take(index as int)),
        decreases 7 - index,
    {
        let shift: u8 = 6 - index;
        let moved: u8 = scale_factor_grouping >> shift;
        proof {
            lemma_value_bits_index(scale_factor_grouping as nat, 7, index as int);
            vstd::bits::lemma_u8_shr_is_div(scale_factor_grouping, shift);
            lemma_groups_hold_all_windows(joins.take(index as int));
            assert(joins.take(index + 1).drop_last() =~= joins.take(index as int));
        }
        if moved % 2 == 1 {
            let last: usize = lengths.len() - 1;
            let longer: u8 = lengths[last] + 1;
            lengths.set(last, longer);
        } else {
            lengths.push(1);
        }
        index = index + 1;
    }
    proof {
        assert(joins.take(7) =~= joins);
        lemma_groups_hold_all_windows(joins);
    }
    lengths
}

/// The bits that the band count takes after a window sequence.
pub open spec fn max_sfb_bits(sequence: WindowSequence) -> int {
    if sequence == WindowSequence::EightShort {
        4
    } else {
        6
    }
}

/// Parsing of the side information behind the band count.
pub open spec fn parse_grouping(
    sequence: WindowSequence,
    shape: WindowShape,
    max_sfb: u8,
    total_sfb: u8,
    start: int,
    cursor: BitCursor,
) -> (Result<IcsFields, IcsError>, BitCursor) {
    if sequence != WindowSequence::EightShort {
        match cursor.read_flag() {
            (Err(error), next) => (Err(IcsError::Bit(error)), next),
            (Ok(predictor), next) => if predictor {
                (Err(IcsError::PredictionUnsupported), next)
            } else {
                (
                    Ok(
                        IcsFields {
                            window_sequence: sequence,
                            window_shape: shape,
                            max_sfb,
                            total_sfb,
                            predictor_data_present: false,
                            scale_factor_grouping: 0,
                            window_group_lengths: seq![1u8],
                            bits_read: (next.pos - start) as usize,
                        },
                    ),
                    next,
                )
            },
        }
    } else {
        match cursor.read(7) {
            (Err(error), next) => (Err(IcsError::Bit(error)), next),
            (Ok(grouping), next) => (
                Ok(
                    IcsFields {
                        window_sequence: sequence,
                        window_shape: shape,
                        max_sfb,
                        total_sfb,
                        predictor_data_present: false,
                        scale_factor_grouping: grouping as u8,
                        window_group_lengths: group_lengths(value_bits(grouping, 7)),
                        bits_read: (next.pos - start) as usize,
                    },
                ),
                next,
            ),
        }
    }
}

/// Parsing of the side information of a low-complexity stream: a reserved bit,
/// the window sequence and shape, the band count, and then the prediction flag
/// of a long window or the grouping flags of short ones.
pub open spec fn parse_lc(limits: IcsLimits, cursor: BitCursor) -> (Result<IcsFields, IcsError>, BitCursor) {
    match cursor.read_flag() {
        (Err(error), c1) => (Err(IcsError::Bit(error)), c1),
        (Ok(_), c1) => match c1.read(2) {
            (Err(error), c2) => (Err(IcsError::Bit(error)), c2),
            (Ok(sequence_bits), c2) => match c2.read_flag() {
                (Err(error), c3) => (Err(IcsError::Bit(error)), c3),
                (Ok(shape_bit), c3) => {
                    let sequence = WindowSequence::of_bits(sequence_bits as int);
                    let total_sfb = if sequence == WindowSequence::EightShort {
                        limits.short_sfb
                    } else {
                        limits.long_sfb
                    };
                    match c3.read(max_sfb_bits(sequence)) {
                        (Err(error), c4) => (Err(IcsError::Bit(error)), c4),
                        (Ok(max_sfb), c4) => if max_sfb > total_sfb {
                            (Err(IcsError::MaxSfbOutOfRange { max_sfb: max_sfb as u8, total_sfb }), c4)
                        } else {
                            parse_grouping(
                                sequence,
                                WindowShape::of_bit(shape_bit),
                                max_sfb as u8,
                                total_sfb,
                                cursor.pos,
                                c4,
                            )
                        },
                    }
                },
            },
        },
    }
}

/// Parsing of the side information of an enhanced low-delay stream: the band
/// count alone.
pub open spec fn parse_enhanced_low_delay(total_sfb: u8, cursor: BitCursor) -> (Result<IcsFields, IcsError>, BitCursor) {
    match cursor.read(6) {
        (Err(error), next) => (Err(IcsError::Bit(error)), next),
        (Ok(max_sfb), next) => if max_sfb > total_sfb {
            (Err(IcsError::MaxSfbOutOfRange { max_sfb: max_sfb as u8, total_sfb }), next)
        } else {
            (
                Ok(
                    IcsFields {
                        window_sequence: WindowSequence::OnlyLong,
                        window_shape: WindowShape::Sine,
                        max_sfb: max_sfb as u8,
                        total_sfb,
                        predictor_data_present: false,
                        scale_factor_grouping: 0,
                        window_group_lengths: seq![1u8],
                        bits_read: 6,
                    },
                ),
                next,
            )
        },
    }
}

/// Parsing of the side information of a low-delay stream: as that of a
/// low-complexity stream, with only long windows and the low-overlap slope in
/// place of `Kbd`.
pub open spec fn parse_low_delay(total_sfb: u8, cursor: BitCursor) -> (Result<IcsFields, IcsError>, BitCursor) {
    match parse_lc(IcsLimits { long_sfb: total_sfb, short_sfb: 0 }, cursor) {
        (Err(error), next) => (Err(error), next),
        (Ok(ics), next) => if ics.window_sequence != WindowSequence::OnlyLong {
            (Err(IcsError::LowDelayWindowSequence(ics.window_sequence)), next)
        } else if ics.window_shape == WindowShape::Kbd {
            (Ok(IcsFields { window_shape: WindowShape::LowOverlap, ..ics }), next)
        } else {
            (Ok(ics), next)
        },
    }
}

/// The view of a parsing result.
pub open spec fn ics_result(result: Result<IcsInfo, IcsError>) -> Result<IcsFields, IcsError> {
    match result {
        Ok(ics) => Ok(ics@),
        Err(error) => Err(error),
    }
}

impl IcsInfo {
    /// Parses the side information of a low-complexity stream.
    pub fn parse_aac_lc(reader: &mut BitReader<'_>, limits: IcsLimits) -> (result: Result<IcsInfo, IcsError>)
        ensures
            (ics_result(result), final(reader)@) == parse_lc(limits, old(reader)@),
            old(reader)@.leads_to(final(reader)@),
    {
        proof {
            lemma2_to64();
        }
        let start: usize = reader.bits_read();
        let _reserved: bool = match reader.read_bool() {
            Ok(bit) => bit,
            Err(error) => {
                return Err(IcsError::Bit(error));
            },
        };
        let window_sequence = match reader.read_u8(2) {
            Ok(bits) => WindowSequence::from_bits(bits),
            Err(error) => {
                return Err(IcsError::Bit(error));
            },
        };
        let window_shape = match reader.read_bool() {
            Ok(bit) => WindowShape::from_bit(bit),
            Err(error) => {
                return Err(IcsError::Bit(error));
            },
        };
        let long: bool = window_sequence.is_long();
        let total_sfb: u8 = if long {
            limits.long_sfb
        } else {
            limits.short_sfb
        };
        let width: usize = if long {
            6
        } else {
            4
        };
        let max_sfb: u8 = match reader.read_u8(width) {
            Ok(count) => count,
            Err(error) => {
                return Err(IcsError::Bit(error));
            },
        };
        if max_sfb > total_sfb {
            return Err(IcsError::MaxSfbOutOfRange { max_sfb, total_sfb });
        }
        let mut scale_factor_grouping: u8 = 0;
        let mut window_group_lengths: Vec<u8> = Vec::new();
        if long {
            match reader.read_bool() {
                Ok(predictor) => {
                    if predictor {
                        return Err(IcsError::PredictionUnsupported);
                    }
                },
                Err(error) => {
                    return Err(IcsError::Bit(error));
                },
            }
            window_group_lengths.push(1);
            assert(window_group_lengths@ =~= seq![1u8]);
        } else {
            match reader.read_u8(7) {
                Ok(grouping) => {
                    scale_factor_grouping = grouping;
                },
                Err(error) => {
                    return Err(IcsError::Bit(error));
                },
            }
            window_group_lengths = grouping_to_lengths(scale_factor_grouping);
        }
        Ok(
            IcsInfo {
                window_sequence,
                window_shape,
                max_sfb,
                total_sfb,
                predictor_data_present: false,
                scale_factor_grouping,
                window_group_lengths,
                bits_read: reader.bits_read() - start,
            },
        )
    }

    /// Parses the side information of an enhanced low-delay stream.
    pub fn parse_eld(reader: &mut BitReader<'_>, total_sfb: u8) -> (result: Result<IcsInfo, IcsError>)
        ensures
            (ics_result(result), final(reader)@) == parse_enhanced_low_delay(total_sfb, old(reader)@),
            old(reader)@.leads_to(final(reader)@),
    {
        proof {
            lemma2_to64();
        }
        let start: usize = reader.bits_read();
        let max_sfb: u8 = match reader.read_u8(6) {
            Ok(count) => count,
            Err(error) => {
                return Err(IcsError::Bit(error));
            },
        };
        if max_sfb > total_sfb {
            return Err(IcsError::MaxSfbOutOfRange { max_sfb, total_sfb });
        }
        let window_group_lengths: Vec<u8> = vec![1];
        assert(window_group_lengths@ =~= seq![1u8]);
        Ok(
            IcsInfo {
                window_sequence: WindowSequence::OnlyLong,
                window_shape: WindowShape::Sine,
                max_sfb,
                total_sfb,
                predictor_data_present: false,
                scale_factor_grouping: 0,
                window_group_lengths,
                bits_read: reader.bits_read() - start,
            },
        )
    }

    /// Parses the side information of a low-delay stream.
    pub fn parse_aac_ld(reader: &mut BitReader<'_>, total_sfb: u8) -> (result: Result<IcsInfo, IcsError>)
        ensures
            (ics_result(result), final(reader)@) == parse_low_delay(total_sfb, old(reader)@),
            old(reader)@.leads_to(final(reader)@),
    {
        let mut ics = match IcsInfo::parse_aac_lc(reader, IcsLimits { long_sfb: total_sfb, short_sfb: 0 }) {
            Ok(ics) => ics,
            Err(error) => {
                return Err(error);
            },
        };
        if ics.window_sequence != WindowSequence::OnlyLong {
            return Err(IcsError::LowDelayWindowSequence(ics.window_sequence));
        }
        if ics.window_shape == WindowShape::Kbd {
            ics.window_shape = WindowShape::LowOverlap;
        }
        Ok(ics)
    }
}

// ---------------------------------------------------------------------------
// Groups
// ---------------------------------------------------------------------------

/// The number of clear flags below an index.
pub open spec fn clear_flags(flags: Seq<bool>, index: int) -> int
    decreases index,
{
    if index <= 0 {
        0
    } else {
        clear_flags(flags, index - 1) + if flags[index - 1] {
            0int
        } else {
            1
        }
    }
}

proof fn lemma_clear_same(first: Seq<bool>, second: Seq<bool>, index: int)
    requires
        forall|i: int| 0 <= i < index ==> first[i] == #[trigger] second[i],
    ensures
        clear_flags(first, index) == clear_flags(second, index),
    decreases index,
{
    if index > 0 {
        assert(first[index - 1] == second[index - 1]);
        lemma_clear_same(first, second, index - 1);
    }
}

/// Whether a window belongs to a group: behind the windows of the groups before it, and
/// before those of the groups behind it.
pub open spec fn in_group(lengths: Seq<u8>, group: int, window: int) -> bool {
    0 <= group < lengths.len() && total_length(lengths.take(group)) <= window < total_length(lengths.take(group + 1))
}

/// Every clear flag begins a group: the group of a window is the number of clear flags in
/// front of it, so that a set flag leaves its window with the one before.
pub proof fn lemma_flags_join_windows(joins: Seq<bool>, window: int)
    requires
        joins.len() <= 7,
        0 <= window <= joins.len(),
    ensures
        in_group(group_lengths(joins), clear_flags(joins, window), window),
        clear_flags(joins, joins.len() as int) == group_lengths(joins).len() - 1,
    decreases joins.len(),
{
    let lengths = group_lengths(joins);
    lemma_groups_hold_all_windows(joins);
    if joins.len() == 0 {
        assert(lengths.take(0) =~= Seq::<u8>::empty());
        assert(lengths.take(1) =~= lengths);
    } else {
        let shorter = joins.drop_last();
        let before = group_lengths(shorter);
        lemma_groups_hold_all_windows(shorter);
        lemma_flags_join_windows(
            shorter,
            if window < joins.len() {
                window
            } else {
                shorter.len() as int
            },
        );
        lemma_clear_same(joins, shorter, shorter.len() as int);
        let last = lengths.len() - 1;
        assert(lengths.take(lengths.len() as int) =~= lengths);
        assert(lengths.drop_last() =~= lengths.take(last));
        if window < joins.len() {
            lemma_clear_same(joins, shorter, window);
            let group = clear_flags(joins, window);
            assert(lengths.take(group) =~= before.take(group));
            if group + 1 < before.len() || !joins.last() {
                assert(lengths.take(group + 1) =~= before.take(group + 1));
            } else {
                assert(group == last);
                assert(before.take(group + 1) =~= before);
            }
        } else {
            assert(total_length(lengths) == total_length(lengths.take(last)) + lengths[last]);
            assert(clear_flags(joins, window) == last);
        }
    }
}

// ---------------------------------------------------------------------------
// Reading back
// ---------------------------------------------------------------------------

/// The bits of a long window's side information: a reserved bit, the sequence, the shape, six
/// bits of band count and the prediction flag.
pub open spec fn long_bits(reserved: bool, sequence: WindowSequence, curved: bool, max_sfb: u8, predicted: bool) -> Seq<bool> {
    seq![reserved] + (value_bits(sequence.to_bits() as nat, 2) + (seq![curved] + (value_bits(max_sfb as nat, 6) + (seq![
        predicted,
    ] + Seq::<bool>::empty()))))
}

/// The bits of eight short windows' side information: a reserved bit, the sequence, the shape,
/// four bits of band count and seven join flags.
pub open spec fn short_bits(reserved: bool, curved: bool, max_sfb: u8, grouping: u8) -> Seq<bool> {
    seq![reserved] + (value_bits(2, 2) + (seq![curved] + (value_bits(max_sfb as nat, 4) + (value_bits(grouping as nat, 7)
        + Seq::<bool>::empty()))))
}

/// Side information of a long window reads back: eleven bits are taken, the band count is held
/// to the limit of long windows, and a prediction flag is refused.
pub proof fn lemma_long_read_back(
    limits: IcsLimits,
    reserved: bool,
    sequence: WindowSequence,
    curved: bool,
    max_sfb: u8,
    predicted: bool,
    cursor: BitCursor,
)
    requires
        sequence != WindowSequence::EightShort,
        max_sfb < 64,
        stands_at(long_bits(reserved, sequence, curved, max_sfb, predicted), cursor),
    ensures
        max_sfb > limits.long_sfb ==> parse_lc(limits, cursor) == (
            Err::<IcsFields, IcsError>(IcsError::MaxSfbOutOfRange { max_sfb, total_sfb: limits.long_sfb }),
            cursor.advance(10),
        ),
        max_sfb <= limits.long_sfb && predicted ==> parse_lc(limits, cursor) == (
            Err::<IcsFields, IcsError>(IcsError::PredictionUnsupported),
            cursor.advance(11),
        ),
        max_sfb <= limits.long_sfb && !predicted ==> {
            let (result, next) = parse_lc(limits, cursor);
            &&& next == cursor.advance(11)
            &&& result matches Ok(ics)
            &&& ics.window_sequence == sequence
            &&& ics.window_shape == (if curved { WindowShape::Kbd } else { WindowShape::Sine })
            &&& ics.max_sfb == max_sfb
            &&& ics.total_sfb == limits.long_sfb
            &&& !ics.predictor_data_present
            &&& ics.scale_factor_grouping == 0
            &&& ics.window_group_lengths == seq![1u8]
            &&& ics.bits_read == 11
        },
{
    lemma2_to64();
    let tail: Seq<bool> = seq![predicted] + Seq::<bool>::empty();
    let c1 = cursor.advance(1);
    let c2 = c1.advance(2);
    let c3 = c2.advance(1);
    let c4 = c3.advance(6);
    let counted = value_bits(max_sfb as nat, 6) + tail;
    let shaped = seq![curved] + counted;
    lemma_stands_bit(reserved, value_bits(sequence.to_bits() as nat, 2) + shaped, cursor);
    lemma_stands_field(sequence.to_bits() as nat, 2, shaped, c1);
    lemma_stands_bit(curved, counted, c2);
    lemma_stands_field(max_sfb as nat, 6, tail, c3);
    lemma_stands_bit(predicted, Seq::<bool>::empty(), c4);
    lemma_window_sequence_roundtrip(sequence);
}

/// Side information of eight short windows reads back: fifteen bits are taken, the band count
/// is held to the limit of short windows, and the windows are grouped by the join flags.
pub proof fn lemma_short_read_back(
    limits: IcsLimits,
    reserved: bool,
    curved: bool,
    max_sfb: u8,
    grouping: u8,
    cursor: BitCursor,
)
    requires
        max_sfb < 16,
        grouping < 128,
        stands_at(short_bits(reserved, curved, max_sfb, grouping), cursor),
    ensures
        max_sfb > limits.short_sfb ==> parse_lc(limits, cursor) == (
            Err::<IcsFields, IcsError>(IcsError::MaxSfbOutOfRange { max_sfb, total_sfb: limits.short_sfb }),
            cursor.advance(8),
        ),
        max_sfb <= limits.short_sfb ==> {
            let (result, next) = parse_lc(limits, cursor);
            &&& next == cursor.advance(15)
            &&& result matches Ok(ics)
            &&& ics.window_sequence == WindowSequence::EightShort
            &&& ics.window_shape == (if curved { WindowShape::Kbd } else { WindowShape::Sine })
            &&& ics.max_sfb == max_sfb
            &&& ics.total_sfb == limits.short_sfb
            &&& !ics.predictor_data_present
            &&& ics.scale_factor_grouping == grouping
            &&& ics.window_group_lengths == group_lengths(value_bits(grouping as nat, 7))
            &&& ics.bits_read == 15
        },
{
    lemma2_to64();
    let tail: Seq<bool> = value_bits(grouping as nat, 7) + Seq::<bool>::empty();
    let c1 = cursor.advance(1);
    let c2 = c1.advance(2);
    let c3 = c2.advance(1);
    let c4 = c3.advance(4);
    let counted = value_bits(max_sfb as nat, 4) + tail;
    let shaped = seq![curved] + counted;
    lemma_stands_bit(reserved, value_bits(2, 2) + shaped, cursor);
    lemma_stands_field(2, 2, shaped, c1);
    lemma_stands_bit(curved, counted, c2);
    lemma_stands_field(max_sfb as nat, 4, tail, c3);
    lemma_stands_field(grouping as nat, 7, Seq::<bool>::empty(), c4);
}

/// A low-delay stream has one plain long window: another long sequence is refused by name, and
/// a curved shape is the low-overlap slope.
pub proof fn lemma_low_delay_read_back(
    total_sfb: u8,
    reserved: bool,
    sequence: WindowSequence,
    curved: bool,
    max_sfb: u8,
    cursor: BitCursor,
)
    requires
        sequence != WindowSequence::EightShort,
        max_sfb < 64,
        max_sfb <= total_sfb,
        stands_at(long_bits(reserved, sequence, curved, max_sfb, false), cursor),
    ensures
        ({
            let (result, next) = parse_low_delay(total_sfb, cursor);
            &&& next == cursor.advance(11)
            &&& sequence != WindowSequence::OnlyLong ==> result == Err::<IcsFields, IcsError>(
                IcsError::LowDelayWindowSequence(sequence),
            )
            &&& sequence == WindowSequence::OnlyLong ==> {
                &&& result matches Ok(ics)
                &&& ics.window_sequence == WindowSequence::OnlyLong
                &&& ics.window_shape == (if curved { WindowShape::LowOverlap } else { WindowShape::Sine })
                &&& ics.max_sfb == max_sfb
                &&& ics.total_sfb == total_sfb
                &&& ics.bits_read == 11
            }
        }),
{
    lemma_long_read_back(
        IcsLimits { long_sfb: total_sfb, short_sfb: 0 },
        reserved,
        sequence,
        curved,
        max_sfb,
        false,
        cursor,
    );
}

/// Side information of an enhanced low-delay stream is the band count alone.
pub proof fn lemma_enhanced_read_back(total_sfb: u8, max_sfb: u8, cursor: BitCursor)
    requires
        max_sfb < 64,
        stands_at(value_bits(max_sfb as nat, 6) + Seq::<bool>::empty(), cursor),
    ensures
        ({
            let (result, next) = parse_enhanced_low_delay(total_sfb, cursor);
            &&& next == cursor.advance(6)
            &&& max_sfb > total_sfb ==> result == Err::<IcsFields, IcsError>(
                IcsError::MaxSfbOutOfRange { max_sfb, total_sfb },
            )
            &&& max_sfb <= total_sfb ==> {
                &&& result matches Ok(ics)
                &&& ics.window_sequence == WindowSequence::OnlyLong
                &&& ics.window_shape == WindowShape::Sine
                &&& ics.max_sfb == max_sfb
                &&& ics.total_sfb == total_sfb
                &&& ics.window_group_lengths == seq![1u8]
                &&& ics.bits_read == 6
            }
        }),
{
    lemma2_to64();
    lemma_stands_field(max_sfb as nat, 6, Seq::<bool>::empty(), cursor);
}

} // verus!
