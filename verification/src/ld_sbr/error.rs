//! Failures of spectral band replication parsing.

use vstd::prelude::*;

use crate::bits::BitError;
use crate::text::{
    decimal_text, digits, literal, numbered, numbered_text, push_decimal, push_hex_digits, push_literal,
};

verus! {

/// Failures of spectral band replication parsing.
#[derive(Debug, Clone, Copy, PartialEq, Eq, Structural)]
pub enum LdSbrError {
    UnexpectedEof,
    UnsupportedTimeSlots(u8),
    InvalidTransientPosition { position: u8, time_slots: u8 },
    TooManyEnvelopes(usize),
    UnsupportedSamplingFrequency(u32),
    InvalidFrequencyRange,
    InvalidCrossoverBand(u8),
    InvalidHuffmanCodeword,
    ExpectedStereo,
    UnsupportedFrameLength(usize),
    CrcMismatch { expected: u16, calculated: u16 },
    CoupledLayoutMismatch,
}

impl From<BitError> for LdSbrError {
    fn from(value: BitError) -> (error: LdSbrError) {
        LdSbrError::UnexpectedEof
    }
}

impl vstd::std_specs::convert::FromSpecImpl<BitError> for LdSbrError {
    open spec fn obeys_from_spec() -> bool {
        true
    }

    open spec fn from_spec(value: BitError) -> LdSbrError {
        LdSbrError::UnexpectedEof
    }
}

/// A number in hexadecimal with its prefix and at least three digits.
pub open spec fn hex3_text(value: nat) -> Seq<char> {
    "0x"@ + (if value < 0x10 {
        "00"@
    } else if value < 0x100 {
        "0"@
    } else {
        Seq::<char>::empty()
    }) + digits(value, 16)
}

fn push_hex3(message: &mut String, value: u64)
    ensures
        final(message)@ == old(message)@ + hex3_text(value as nat),
{
    push_literal(message, "0x");
    if value < 0x10 {
        push_literal(message, "00");
    } else if value < 0x100 {
        push_literal(message, "0");
    }
    push_hex_digits(message, value);
    assert(message@ =~= old(message)@ + hex3_text(value as nat));
}

impl LdSbrError {
    /// The diagnostic of this error.
    pub open spec fn message(self) -> Seq<char> {
        match self {
            LdSbrError::UnexpectedEof => "truncated LD-SBR grid"@,
            LdSbrError::UnsupportedTimeSlots(value) => numbered("unsupported LD-SBR time-slot count ", value as nat, ""),
            LdSbrError::InvalidTransientPosition { position, time_slots } => "LD-SBR transient position "@ + decimal_text(
                position as nat,
            ) + " exceeds "@ + decimal_text(time_slots as nat) + " time slots"@,
            LdSbrError::TooManyEnvelopes(value) => numbered("unsupported LD-SBR envelope count ", value as nat, ""),
            LdSbrError::UnsupportedSamplingFrequency(value) => numbered(
                "unsupported LD-SBR sampling frequency ",
                value as nat,
                "",
            ),
            LdSbrError::InvalidFrequencyRange => "invalid LD-SBR frequency range"@,
            LdSbrError::InvalidCrossoverBand(value) => numbered("invalid LD-SBR crossover band ", value as nat, ""),
            LdSbrError::InvalidHuffmanCodeword => "invalid LD-SBR Huffman codeword"@,
            LdSbrError::ExpectedStereo => "LD-SBR stereo payload requires a right channel"@,
            LdSbrError::UnsupportedFrameLength(value) => numbered("unsupported LD-SBR frame length ", value as nat, ""),
            LdSbrError::CrcMismatch { expected, calculated } => "LD-SBR CRC mismatch: expected "@ + hex3_text(
                expected as nat,
            ) + ", calculated "@ + hex3_text(calculated as nat),
            LdSbrError::CoupledLayoutMismatch => "LD-SBR coupled channel layout mismatch"@,
        }
    }

    /// Renders the diagnostic of this error.
    pub fn to_string(&self) -> (message: String)
        ensures
            message@ == self.message(),
    {
        match self {
            LdSbrError::UnexpectedEof => literal("truncated LD-SBR grid"),
            LdSbrError::UnsupportedTimeSlots(value) => numbered_text(
                "unsupported LD-SBR time-slot count ",
                *value as u64,
                "",
            ),
            LdSbrError::InvalidTransientPosition { position, time_slots } => {
                let mut message = literal("LD-SBR transient position ");
                push_decimal(&mut message, *position as u64);
                push_literal(&mut message, " exceeds ");
                push_decimal(&mut message, *time_slots as u64);
                push_literal(&mut message, " time slots");
                message
            },
            LdSbrError::TooManyEnvelopes(value) => numbered_text(
                "unsupported LD-SBR envelope count ",
                *value as u64,
                "",
            ),
            LdSbrError::UnsupportedSamplingFrequency(value) => numbered_text(
                "unsupported LD-SBR sampling frequency ",
                *value as u64,
                "",
            ),
            LdSbrError::InvalidFrequencyRange => literal("invalid LD-SBR frequency range"),
            LdSbrError::InvalidCrossoverBand(value) => numbered_text(
                "invalid LD-SBR crossover band ",
                *value as u64,
                "",
            ),
            LdSbrError::InvalidHuffmanCodeword => literal("invalid LD-SBR Huffman codeword"),
            LdSbrError::ExpectedStereo => literal("LD-SBR stereo payload requires a right channel"),
            LdSbrError::UnsupportedFrameLength(value) => numbered_text(
                "unsupported LD-SBR frame length ",
                *value as u64,
                "",
            ),
            LdSbrError::CrcMismatch { expected, calculated } => {
                let mut message = literal("LD-SBR CRC mismatch: expected ");
                push_hex3(&mut message, *expected as u64);
                push_literal(&mut message, ", calculated ");
                push_hex3(&mut message, *calculated as u64);
                message
            },
            LdSbrError::CoupledLayoutMismatch => literal("LD-SBR coupled channel layout mismatch"),
        }
    }
}

} // verus!
