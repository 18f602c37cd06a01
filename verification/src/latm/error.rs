//! Errors of the transport.

use vstd::prelude::*;

use crate::asc::AscError;
use crate::bits::BitError;
use crate::text::{decimal_text, literal, numbered, numbered_text, push_decimal, push_literal};

verus! {

/// Why a multiplex element cannot be read or written.
#[derive(Debug, Clone, Copy, PartialEq, Eq, Structural)]
pub enum LatmError {
    Bit(BitError),
    Asc(AscError),
    InvalidChannelConfiguration(u8),
    InvalidAudioSpecificConfigLength { declared_bits: usize, remaining_bits: usize },
    InvalidSamplingFrequencyIndex(u8),
    InvalidSubframeCount(u8),
    InvalidOtherDataLength { bits: usize, available_bits: usize },
    InvalidFixedFrameLength(usize),
    InvalidPayloadBitLength { bits: usize, available_bits: usize },
    InvalidUseSameConfig,
    MissingStreamMuxConfig,
    OtherDataTooLarge,
    PayloadTooLarge,
    PayloadCountMismatch { expected: usize, actual: usize },
    StreamsNotSameTimeFramed,
    UnsupportedAudioMuxVersion(u8),
    UnsupportedAudioMuxVersionA(u8),
    UnsupportedAudioObjectType(u8),
    UnsupportedCoreCoderDependency,
    UnsupportedCrc,
    UnsupportedFrameLengthFlag,
    UnsupportedFrameLengthType(u8),
    UnsupportedErrorProtectionConfig(u8),
    UnsupportedGaExtension,
    UnsupportedOtherData,
    UnsupportedProgramOrLayerLayout,
}

impl From<BitError> for LatmError {
    fn from(value: BitError) -> (error: LatmError) {
        LatmError::Bit(value)
    }
}

impl vstd::std_specs::convert::FromSpecImpl<BitError> for LatmError {
    open spec fn obeys_from_spec() -> bool {
        true
    }

    open spec fn from_spec(value: BitError) -> LatmError {
        LatmError::Bit(value)
    }
}

impl From<AscError> for LatmError {
    fn from(value: AscError) -> (error: LatmError) {
        LatmError::Asc(value)
    }
}

impl vstd::std_specs::convert::FromSpecImpl<AscError> for LatmError {
    open spec fn obeys_from_spec() -> bool {
        true
    }

    open spec fn from_spec(value: AscError) -> LatmError {
        LatmError::Asc(value)
    }
}

/// A diagnostic around two numbers.
pub open spec fn counted(before: &str, first: nat, between: &str, second: nat, after: &str) -> Seq<char> {
    before@ + decimal_text(first) + between@ + decimal_text(second) + after@
}

fn counted_text(before: &str, first: u64, between: &str, second: u64, after: &str) -> (message: String)
    ensures
        message@ == counted(before, first as nat, between, second as nat, after),
{
    let mut message: String = literal(before);
    push_decimal(&mut message, first);
    push_literal(&mut message, between);
    push_decimal(&mut message, second);
    push_literal(&mut message, after);
    message
}

impl LatmError {
    /// The diagnostic of this error.
    pub open spec fn message(self) -> Seq<char> {
        match self {
            LatmError::Bit(error) => error.message(),
            LatmError::Asc(error) => error.message(),
            LatmError::InvalidChannelConfiguration(value) => numbered("invalid LATM channel configuration ", value as nat, ""),
            LatmError::InvalidAudioSpecificConfigLength { declared_bits, remaining_bits } => counted(
                "LATM AudioSpecificConfig declares ",
                declared_bits as nat,
                " bits, only ",
                remaining_bits as nat,
                " remain",
            ),
            LatmError::InvalidSamplingFrequencyIndex(value) => numbered("invalid LATM sampling frequency index ", value as nat, ""),
            LatmError::InvalidSubframeCount(value) => numbered("invalid LATM subframe count ", value as nat, ""),
            LatmError::InvalidOtherDataLength { bits, available_bits } => counted(
                "LATM otherData declares ",
                bits as nat,
                " bits, only ",
                available_bits as nat,
                " are available",
            ),
            LatmError::InvalidFixedFrameLength(value) => numbered("invalid LATM fixed frame length ", value as nat, " bits"),
            LatmError::InvalidPayloadBitLength { bits, available_bits } => counted(
                "LATM payload requires ",
                bits as nat,
                " bits, only ",
                available_bits as nat,
                " are available",
            ),
            LatmError::InvalidUseSameConfig => "invalid LATM useSameConfig reference"@,
            LatmError::MissingStreamMuxConfig => "LATM useSameStreamMux has no prior config"@,
            LatmError::OtherDataTooLarge => "LATM otherData length is too large"@,
            LatmError::PayloadTooLarge => "LATM payload length is too large"@,
            LatmError::PayloadCountMismatch { expected, actual } => counted(
                "LATM expected ",
                expected as nat,
                " subframe payloads, got ",
                actual as nat,
                "",
            ),
            LatmError::StreamsNotSameTimeFramed => "LATM streams must use same time framing"@,
            LatmError::UnsupportedAudioMuxVersion(value) => numbered("unsupported LATM AudioMuxVersion ", value as nat, ""),
            LatmError::UnsupportedAudioMuxVersionA(value) => numbered("unsupported LATM AudioMuxVersionA ", value as nat, ""),
            LatmError::UnsupportedAudioObjectType(value) => numbered("unsupported LATM audio object type ", value as nat, ""),
            LatmError::UnsupportedCoreCoderDependency => "LATM core coder dependency is unsupported"@,
            LatmError::UnsupportedCrc => "LATM CRC is unsupported"@,
            LatmError::UnsupportedFrameLengthFlag => "LATM frameLengthFlag is unsupported"@,
            LatmError::UnsupportedFrameLengthType(value) => numbered("LATM frameLengthType ", value as nat, " is unsupported"),
            LatmError::UnsupportedErrorProtectionConfig(value) => numbered("unsupported LATM ER epConfig ", value as nat, ""),
            LatmError::UnsupportedGaExtension => "LATM GA extension is unsupported"@,
            LatmError::UnsupportedOtherData => "LATM otherData is unsupported"@,
            LatmError::UnsupportedProgramOrLayerLayout => "LATM only supports one program and one layer"@,
        }
    }

    /// Renders the diagnostic of this error.
    pub fn to_string(&self) -> (message: String)
        ensures
            message@ == self.message(),
    {
        match self {
            LatmError::Bit(error) => error.to_string(),
            LatmError::Asc(error) => error.to_string(),
            LatmError::InvalidChannelConfiguration(value) => numbered_text("invalid LATM channel configuration ", *value as u64, ""),
            LatmError::InvalidAudioSpecificConfigLength { declared_bits, remaining_bits } => counted_text(
                "LATM AudioSpecificConfig declares ",
                *declared_bits as u64,
                " bits, only ",
                *remaining_bits as u64,
                " remain",
            ),
            LatmError::InvalidSamplingFrequencyIndex(value) => numbered_text("invalid LATM sampling frequency index ", *value as u64, ""),
            LatmError::InvalidSubframeCount(value) => numbered_text("invalid LATM subframe count ", *value as u64, ""),
            LatmError::InvalidOtherDataLength { bits, available_bits } => counted_text(
                "LATM otherData declares ",
                *bits as u64,
                " bits, only ",
                *available_bits as u64,
                " are available",
            ),
            LatmError::InvalidFixedFrameLength(value) => numbered_text("invalid LATM fixed frame length ", *value as u64, " bits"),
            LatmError::InvalidPayloadBitLength { bits, available_bits } => counted_text(
                "LATM payload requires ",
                *bits as u64,
                " bits, only ",
                *available_bits as u64,
                " are available",
            ),
            LatmError::InvalidUseSameConfig => literal("invalid LATM useSameConfig reference"),
            LatmError::MissingStreamMuxConfig => literal("LATM useSameStreamMux has no prior config"),
            LatmError::OtherDataTooLarge => literal("LATM otherData length is too large"),
            LatmError::PayloadTooLarge => literal("LATM payload length is too large"),
            LatmError::PayloadCountMismatch { expected, actual } => counted_text(
                "LATM expected ",
                *expected as u64,
                " subframe payloads, got ",
                *actual as u64,
                "",
            ),
            LatmError::StreamsNotSameTimeFramed => literal("LATM streams must use same time framing"),
            LatmError::UnsupportedAudioMuxVersion(value) => numbered_text("unsupported LATM AudioMuxVersion ", *value as u64, ""),
            LatmError::UnsupportedAudioMuxVersionA(value) => numbered_text("unsupported LATM AudioMuxVersionA ", *value as u64, ""),
            LatmError::UnsupportedAudioObjectType(value) => numbered_text("unsupported LATM audio object type ", *value as u64, ""),
            LatmError::UnsupportedCoreCoderDependency => literal("LATM core coder dependency is unsupported"),
            LatmError::UnsupportedCrc => literal("LATM CRC is unsupported"),
            LatmError::UnsupportedFrameLengthFlag => literal("LATM frameLengthFlag is unsupported"),
            LatmError::UnsupportedFrameLengthType(value) => numbered_text("LATM frameLengthType ", *value as u64, " is unsupported"),
            LatmError::UnsupportedErrorProtectionConfig(value) => numbered_text("unsupported LATM ER epConfig ", *value as u64, ""),
            LatmError::UnsupportedGaExtension => literal("LATM GA extension is unsupported"),
            LatmError::UnsupportedOtherData => literal("LATM otherData is unsupported"),
            LatmError::UnsupportedProgramOrLayerLayout => literal("LATM only supports one program and one layer"),
        }
    }
}

} // verus!
