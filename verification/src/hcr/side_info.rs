//! Lengths of a reordered payload, and what can go wrong with one.

use vstd::arithmetic::power2::lemma2_to64;
use vstd::prelude::*;

use crate::bits::{
    bits_of, lemma_stands_field, padding, stands_at, value_bits, BitCursor, BitError, BitReader, BitWriter,
};
use crate::spectral::SpectralError;
use crate::text::{decimal_text, literal, numbered, numbered_text, push_decimal, push_literal};

verus! {

/// The longest reordered payload of a single channel.
pub const SCE_MAX_REORDERED_SPECTRAL_BITS: usize = 6144;

/// The longest reordered payload of a channel pair.
pub const CPE_MAX_REORDERED_SPECTRAL_BITS: usize = 12288;

/// The longest codeword of any codebook.
pub const MAX_LONGEST_CODEWORD_BITS: usize = 49;

/// The kind of element that carries a reordered payload.
#[derive(Debug, Clone, Copy, PartialEq, Eq, Structural)]
pub enum HcrElementType {
    SingleChannel,
    ChannelPair,
    LowFrequencyEffects,
    CouplingChannel,
}

impl HcrElementType {
    /// The longest payload of an element.
    pub open spec fn max_bits(self) -> usize {
        match self {
            HcrElementType::ChannelPair => CPE_MAX_REORDERED_SPECTRAL_BITS,
            _ => SCE_MAX_REORDERED_SPECTRAL_BITS,
        }
    }

    /// The longest payload of this element.
    pub fn max_reordered_bits(self) -> (bits: usize)
        ensures
            bits == self.max_bits(),
    {
        match self {
            HcrElementType::ChannelPair => CPE_MAX_REORDERED_SPECTRAL_BITS,
            HcrElementType::SingleChannel
            | HcrElementType::LowFrequencyEffects
            | HcrElementType::CouplingChannel => SCE_MAX_REORDERED_SPECTRAL_BITS,
        }
    }
}

/// Failures of codeword reordering.
#[derive(Debug, Clone, Copy, PartialEq, Eq, Structural)]
pub enum HcrError {
    Bit(BitError),
    Spectral(SpectralError),
    ReorderedSpectralLengthOutOfRange { length: usize, maximum: usize },
    LongestCodewordLengthOutOfRange { length: usize, maximum: usize },
    InconsistentLengths { reordered_spectral_bits: usize, longest_codeword_bits: usize },
    InvalidCodebook(u8),
    InvalidSectionLineCount { section: usize, spectral_lines: usize, dimension: usize },
    PayloadTooShort { needed_bits: usize, available_bits: usize },
    SegmentOverrun { section: usize, codeword: usize, consumed_bits: usize, segment_bits: usize },
    LayoutMismatch,
    ShortBandNotFourLineAligned { band: usize, width: usize },
    EmptySegment,
    SegmentReadOverrun { consumed_bits: usize, available_bits: usize },
    IncompleteCodeword { section: usize, codeword: usize, accumulated_bits: usize },
    MissingCodeword { section: usize, codeword: usize },
    CoefficientDimensionMismatch { section: usize, codeword: usize, expected: usize, actual: usize },
    LargestAbsoluteValueExceeded { codebook: u8, value: i32, maximum: i32 },
}

impl From<BitError> for HcrError {
    fn from(value: BitError) -> (error: HcrError) {
        HcrError::Bit(value)
    }
}

impl vstd::std_specs::convert::FromSpecImpl<BitError> for HcrError {
    open spec fn obeys_from_spec() -> bool {
        true
    }

    open spec fn from_spec(value: BitError) -> HcrError {
        HcrError::Bit(value)
    }
}

impl From<SpectralError> for HcrError {
    fn from(value: SpectralError) -> (error: HcrError) {
        HcrError::Spectral(value)
    }
}

impl vstd::std_specs::convert::FromSpecImpl<SpectralError> for HcrError {
    open spec fn obeys_from_spec() -> bool {
        true
    }

    open spec fn from_spec(value: SpectralError) -> HcrError {
        HcrError::Spectral(value)
    }
}

/// The rendering of a signed number.
pub open spec fn signed_text(value: i32) -> Seq<char> {
    if value < 0 {
        "-"@ + decimal_text((-value) as nat)
    } else {
        decimal_text(value as nat)
    }
}

fn push_signed(message: &mut String, value: i32)
    ensures
        final(message)@ == old(message)@ + signed_text(value),
{
    if value < 0 {
        push_literal(message, "-");
        push_decimal(message, (-(value as i64)) as u64);
        assert(message@ =~= old(message)@ + signed_text(value));
    } else {
        push_decimal(message, value as u64);
    }
}

impl HcrError {
    /// The diagnostic of this error.
    pub open spec fn message(self) -> Seq<char> {
        match self {
            HcrError::Bit(error) => error.message(),
            HcrError::Spectral(error) => error.message(),
            HcrError::ReorderedSpectralLengthOutOfRange { length, maximum } => "HCR reordered spectral length "@
                + decimal_text(length as nat) + " exceeds "@ + decimal_text(maximum as nat) + " bits"@,
            HcrError::LongestCodewordLengthOutOfRange { length, maximum } => "HCR longest codeword length "@
                + decimal_text(length as nat) + " exceeds "@ + decimal_text(maximum as nat) + " bits"@,
            HcrError::InconsistentLengths { reordered_spectral_bits, longest_codeword_bits } => "HCR longest codeword ("@
                + decimal_text(longest_codeword_bits as nat) + " bits) exceeds reordered payload ("@ + decimal_text(
                reordered_spectral_bits as nat,
            ) + " bits)"@,
            HcrError::InvalidCodebook(codebook) => numbered("invalid HCR codebook ", codebook as nat, ""),
            HcrError::InvalidSectionLineCount { section, spectral_lines, dimension } => "HCR section "@ + decimal_text(
                section as nat,
            ) + " has "@ + decimal_text(spectral_lines as nat) + " lines, not divisible by codebook dimension "@
                + decimal_text(dimension as nat),
            HcrError::PayloadTooShort { needed_bits, available_bits } => "HCR payload needs "@ + decimal_text(
                needed_bits as nat,
            ) + " bits, only "@ + decimal_text(available_bits as nat) + " are available"@,
            HcrError::SegmentOverrun { section, codeword, consumed_bits, segment_bits } => "HCR section "@
                + decimal_text(section as nat) + " codeword "@ + decimal_text(codeword as nat) + " consumed "@
                + decimal_text(consumed_bits as nat) + " bits from a "@ + decimal_text(segment_bits as nat)
                + "-bit segment"@,
            HcrError::LayoutMismatch => "HCR section layout does not match ICS data"@,
            HcrError::ShortBandNotFourLineAligned { band, width } => "HCR short-window band "@ + decimal_text(
                band as nat,
            ) + " has "@ + decimal_text(width as nat) + " lines, not a multiple of four"@,
            HcrError::EmptySegment => "cannot decode an empty HCR segment"@,
            HcrError::SegmentReadOverrun { consumed_bits, available_bits } => "HCR codeword consumed "@ + decimal_text(
                consumed_bits as nat,
            ) + " bits with only "@ + decimal_text(available_bits as nat) + " segment bits available"@,
            HcrError::IncompleteCodeword { section, codeword, accumulated_bits } => "incomplete HCR section "@
                + decimal_text(section as nat) + " codeword "@ + decimal_text(codeword as nat) + " after "@
                + decimal_text(accumulated_bits as nat) + " bits"@,
            HcrError::MissingCodeword { section, codeword } => "missing HCR section "@ + decimal_text(section as nat)
                + " codeword "@ + decimal_text(codeword as nat),
            HcrError::CoefficientDimensionMismatch { section, codeword, expected, actual } => "HCR section "@
                + decimal_text(section as nat) + " codeword "@ + decimal_text(codeword as nat) + " has "@
                + decimal_text(actual as nat) + " coefficients, expected "@ + decimal_text(expected as nat),
            HcrError::LargestAbsoluteValueExceeded { codebook, value, maximum } => "HCR codebook "@ + decimal_text(
                codebook as nat,
            ) + " decoded value "@ + signed_text(value) + " beyond largest absolute value "@ + signed_text(maximum),
        }
    }

    /// Renders the diagnostic of this error.
    pub fn to_string(&self) -> (message: String)
        ensures
            message@ == self.message(),
    {
        match self {
            HcrError::Bit(error) => error.to_string(),
            HcrError::Spectral(error) => error.to_string(),
            HcrError::ReorderedSpectralLengthOutOfRange { length, maximum } => {
                let mut message = literal("HCR reordered spectral length ");
                push_decimal(&mut message, *length as u64);
                push_literal(&mut message, " exceeds ");
                push_decimal(&mut message, *maximum as u64);
                push_literal(&mut message, " bits");
                message
            },
            HcrError::LongestCodewordLengthOutOfRange { length, maximum } => {
                let mut message = literal("HCR longest codeword length ");
                push_decimal(&mut message, *length as u64);
                push_literal(&mut message, " exceeds ");
                push_decimal(&mut message, *maximum as u64);
                push_literal(&mut message, " bits");
                message
            },
            HcrError::InconsistentLengths { reordered_spectral_bits, longest_codeword_bits } => {
                let mut message = literal("HCR longest codeword (");
                push_decimal(&mut message, *longest_codeword_bits as u64);
                push_literal(&mut message, " bits) exceeds reordered payload (");
                push_decimal(&mut message, *reordered_spectral_bits as u64);
                push_literal(&mut message, " bits)");
                message
            },
            HcrError::InvalidCodebook(codebook) => numbered_text("invalid HCR codebook ", *codebook as u64, ""),
            HcrError::InvalidSectionLineCount { section, spectral_lines, dimension } => {
                let mut message = literal("HCR section ");
                push_decimal(&mut message, *section as u64);
                push_literal(&mut message, " has ");
                push_decimal(&mut message, *spectral_lines as u64);
                push_literal(&mut message, " lines, not divisible by codebook dimension ");
                push_decimal(&mut message, *dimension as u64);
                message
            },
            HcrError::PayloadTooShort { needed_bits, available_bits } => {
                let mut message = literal("HCR payload needs ");
                push_decimal(&mut message, *needed_bits as u64);
                push_literal(&mut message, " bits, only ");
                push_decimal(&mut message, *available_bits as u64);
                push_literal(&mut message, " are available");
                message
            },
            HcrError::SegmentOverrun { section, codeword, consumed_bits, segment_bits } => {
                let mut message = literal("HCR section ");
                push_decimal(&mut message, *section as u64);
                push_literal(&mut message, " codeword ");
                push_decimal(&mut message, *codeword as u64);
                push_literal(&mut message, " consumed ");
                push_decimal(&mut message, *consumed_bits as u64);
                push_literal(&mut message, " bits from a ");
                push_decimal(&mut message, *segment_bits as u64);
                push_literal(&mut message, "-bit segment");
                message
            },
            HcrError::LayoutMismatch => literal("HCR section layout does not match ICS data"),
            HcrError::ShortBandNotFourLineAligned { band, width } => {
                let mut message = literal("HCR short-window band ");
                push_decimal(&mut message, *band as u64);
                push_literal(&mut message, " has ");
                push_decimal(&mut message, *width as u64);
                push_literal(&mut message, " lines, not a multiple of four");
                message
            },
            HcrError::EmptySegment => literal("cannot decode an empty HCR segment"),
            HcrError::SegmentReadOverrun { consumed_bits, available_bits } => {
                let mut message = literal("HCR codeword consumed ");
                push_decimal(&mut message, *consumed_bits as u64);
                push_literal(&mut message, " bits with only ");
                push_decimal(&mut message, *available_bits as u64);
                push_literal(&mut message, " segment bits available");
                message
            },
            HcrError::IncompleteCodeword { section, codeword, accumulated_bits } => {
                let mut message = literal("incomplete HCR section ");
                push_decimal(&mut message, *section as u64);
                push_literal(&mut message, " codeword ");
                push_decimal(&mut message, *codeword as u64);
                push_literal(&mut message, " after ");
                push_decimal(&mut message, *accumulated_bits as u64);
                push_literal(&mut message, " bits");
                message
            },
            HcrError::MissingCodeword { section, codeword } => {
                let mut message = literal("missing HCR section ");
                push_decimal(&mut message, *section as u64);
                push_literal(&mut message, " codeword ");
                push_decimal(&mut message, *codeword as u64);
                message
            },
            HcrError::CoefficientDimensionMismatch { section, codeword, expected, actual } => {
                let mut message = literal("HCR section ");
                push_decimal(&mut message, *section as u64);
                push_literal(&mut message, " codeword ");
                push_decimal(&mut message, *codeword as u64);
                push_literal(&mut message, " has ");
                push_decimal(&mut message, *actual as u64);
                push_literal(&mut message, " coefficients, expected ");
                push_decimal(&mut message, *expected as u64);
                message
            },
            HcrError::LargestAbsoluteValueExceeded { codebook, value, maximum } => {
                let mut message = literal("HCR codebook ");
                push_decimal(&mut message, *codebook as u64);
                push_literal(&mut message, " decoded value ");
                push_signed(&mut message, *value);
                push_literal(&mut message, " beyond largest absolute value ");
                push_signed(&mut message, *maximum);
                message
            },
        }
    }
}

/// The lengths that precede a reordered payload.
#[derive(Debug, Clone, Copy, PartialEq, Eq, Structural)]
pub struct HcrSideInfo {
    pub reordered_spectral_bits: usize,
    pub longest_codeword_bits: usize,
    pub bits_read: usize,
}

/// Parsing of the two lengths: fourteen and six bits, each within its limit and
/// the payload no shorter than its longest codeword.
pub open spec fn parse_side_info(element: HcrElementType, cursor: BitCursor) -> (
    Result<HcrSideInfo, HcrError>,
    BitCursor,
) {
    match cursor.read(14) {
        (Err(error), c1) => (Err(HcrError::Bit(error)), c1),
        (Ok(reordered), c1) => match c1.read(6) {
            (Err(error), c2) => (Err(HcrError::Bit(error)), c2),
            (Ok(longest), c2) => (
                if reordered > element.max_bits() {
                    Err(
                        HcrError::ReorderedSpectralLengthOutOfRange {
                            length: reordered as usize,
                            maximum: element.max_bits(),
                        },
                    )
                } else if longest > MAX_LONGEST_CODEWORD_BITS {
                    Err(
                        HcrError::LongestCodewordLengthOutOfRange {
                            length: longest as usize,
                            maximum: MAX_LONGEST_CODEWORD_BITS,
                        },
                    )
                } else if reordered < longest {
                    Err(
                        HcrError::InconsistentLengths {
                            reordered_spectral_bits: reordered as usize,
                            longest_codeword_bits: longest as usize,
                        },
                    )
                } else {
                    Ok(
                        HcrSideInfo {
                            reordered_spectral_bits: reordered as usize,
                            longest_codeword_bits: longest as usize,
                            bits_read: 20,
                        },
                    )
                },
                c2,
            ),
        },
    }
}

impl HcrSideInfo {
    /// Parses the lengths of a reordered payload.
    pub fn parse(reader: &mut BitReader<'_>, element_type: HcrElementType) -> (result: Result<HcrSideInfo, HcrError>)
        ensures
            (result, final(reader)@) == parse_side_info(element_type, old(reader)@),
            old(reader)@.leads_to(final(reader)@),
    {
        proof {
            lemma2_to64();
        }
        let start: usize = reader.bits_read();
        let reordered_spectral_bits: usize = match reader.read_u16(14) {
            Ok(length) => length as usize,
            Err(error) => {
                return Err(HcrError::Bit(error));
            },
        };
        let longest_codeword_bits: usize = match reader.read_u8(6) {
            Ok(length) => length as usize,
            Err(error) => {
                return Err(HcrError::Bit(error));
            },
        };
        let maximum: usize = element_type.max_reordered_bits();
        if reordered_spectral_bits > maximum {
            return Err(HcrError::ReorderedSpectralLengthOutOfRange { length: reordered_spectral_bits, maximum });
        }
        if longest_codeword_bits > MAX_LONGEST_CODEWORD_BITS {
            return Err(
                HcrError::LongestCodewordLengthOutOfRange {
                    length: longest_codeword_bits,
                    maximum: MAX_LONGEST_CODEWORD_BITS,
                },
            );
        }
        if reordered_spectral_bits < longest_codeword_bits {
            return Err(HcrError::InconsistentLengths { reordered_spectral_bits, longest_codeword_bits });
        }
        Ok(
            HcrSideInfo {
                reordered_spectral_bits,
                longest_codeword_bits,
                bits_read: reader.bits_read() - start,
            },
        )
    }

    /// Copies the payload behind the lengths into bytes.
    pub fn read_payload(self, reader: &mut BitReader<'_>) -> (result: Result<Vec<u8>, HcrError>)
        ensures
            final(reader)@.bits == old(reader)@.bits,
            match result {
                Ok(payload) => {
                    let count = self.reordered_spectral_bits as nat;
                    &&& count <= old(reader)@.remaining()
                    &&& final(reader)@.pos == old(reader)@.pos + count
                    &&& bits_of(payload@) == old(reader)@.bits.subrange(
                        old(reader)@.pos,
                        old(reader)@.pos + count,
                    ) + padding(count)
                },
                Err(error) => {
                    &&& self.reordered_spectral_bits > old(reader)@.remaining()
                    &&& final(reader)@.pos == final(reader)@.bits.len()
                    &&& error == HcrError::Bit(BitError::UnexpectedEof { needed_bits: 1, remaining_bits: 0 })
                },
            },
    {
        let _ = reader.bits_read();
        let ghost bits = reader@.bits;
        let ghost start = reader@.pos;
        let mut writer = BitWriter::new();
        let mut done: usize = 0;
        assert(bits.subrange(start, start) =~= Seq::<bool>::empty());
        while done < self.reordered_spectral_bits
            invariant
                done <= self.reordered_spectral_bits,
                reader@.bits == bits,
                bits == old(reader)@.bits,
                start == old(reader)@.pos,
                0 <= start,
                reader@.pos == start + done,
                start + done <= bits.len(),
                writer@ == bits.subrange(start, start + done),
            decreases self.reordered_spectral_bits - done,
        {
            match reader.read_bool() {
                Ok(bit) => {
                    writer.write_bool(bit);
                },
                Err(error) => {
                    return Err(HcrError::Bit(error));
                },
            }
            assert(bits.subrange(start, start + done + 1) =~= bits.subrange(start, start + done).push(
                bits[start + done],
            ));
            done = done + 1;
        }
        Ok(writer.finish())
    }
}

/// Two lengths written in fourteen and six bits read back. They are accepted where a pair's
/// payload has at most twice the bits of any other element's, no codeword is longer than 49
/// bits and none longer than the payload; else the first limit that is exceeded is named.
pub proof fn lemma_lengths_read_back(element: HcrElementType, reordered: usize, longest: usize, cursor: BitCursor)
    requires
        reordered < 16384,
        longest < 64,
        stands_at(value_bits(reordered as nat, 14) + (value_bits(longest as nat, 6) + Seq::<bool>::empty()), cursor),
    ensures
        ({
            let (result, next) = parse_side_info(element, cursor);
            let most: usize = if element == HcrElementType::ChannelPair {
                12288
            } else {
                6144
            };
            &&& next == cursor.advance(20)
            &&& (result is Ok) == (longest <= reordered <= most && longest <= 49)
            &&& result matches Ok(info) ==> info.reordered_spectral_bits == reordered && info.longest_codeword_bits
                == longest && info.bits_read == 20
            &&& reordered > most ==> result == Err::<HcrSideInfo, HcrError>(
                HcrError::ReorderedSpectralLengthOutOfRange { length: reordered, maximum: most },
            )
            &&& reordered <= most && longest > 49 ==> result == Err::<HcrSideInfo, HcrError>(
                HcrError::LongestCodewordLengthOutOfRange { length: longest, maximum: 49 },
            )
        }),
{
    lemma2_to64();
    lemma_stands_field(reordered as nat, 14, value_bits(longest as nat, 6) + Seq::<bool>::empty(), cursor);
    lemma_stands_field(longest as nat, 6, Seq::<bool>::empty(), cursor.advance(14));
}

} // verus!
