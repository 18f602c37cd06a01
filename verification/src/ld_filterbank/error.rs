//! Errors of the low-delay filterbank.

use vstd::prelude::*;

use crate::text::{decimal_text, literal, numbered, numbered_text, push_decimal, push_literal};

verus! {

/// Why a filterbank cannot be made or used.
#[derive(Debug, Clone, Copy, PartialEq, Eq, Structural)]
pub enum LdFilterbankError {
    UnsupportedFrameLength(usize),
    InvalidCoefficientCount { frame_length: usize, expected: usize, actual: usize },
    SpectrumLengthMismatch { expected: usize, actual: usize },
}

impl LdFilterbankError {
    /// The diagnostic of this error.
    pub open spec fn message(self) -> Seq<char> {
        match self {
            LdFilterbankError::UnsupportedFrameLength(length) => numbered(
                "unsupported AAC-LD filterbank length ",
                length as nat,
                "",
            ),
            LdFilterbankError::InvalidCoefficientCount { frame_length, expected, actual } => "AAC-LD "@ + decimal_text(
                frame_length as nat,
            ) + " filterbank has "@ + decimal_text(actual as nat) + " coefficients, expected "@ + decimal_text(
                expected as nat,
            ),
            LdFilterbankError::SpectrumLengthMismatch { expected, actual } => "AAC-LD filterbank expected "@
                + decimal_text(expected as nat) + " spectral lines, got "@ + decimal_text(actual as nat),
        }
    }

    /// Renders the diagnostic of this error.
    pub fn to_string(&self) -> (message: String)
        ensures
            message@ == self.message(),
    {
        match self {
            LdFilterbankError::UnsupportedFrameLength(length) => numbered_text(
                "unsupported AAC-LD filterbank length ",
                *length as u64,
                "",
            ),
            LdFilterbankError::InvalidCoefficientCount { frame_length, expected, actual } => {
                let mut message: String = literal("AAC-LD ");
                push_decimal(&mut message, *frame_length as u64);
                push_literal(&mut message, " filterbank has ");
                push_decimal(&mut message, *actual as u64);
                push_literal(&mut message, " coefficients, expected ");
                push_decimal(&mut message, *expected as u64);
                message
            },
            LdFilterbankError::SpectrumLengthMismatch { expected, actual } => {
                let mut message: String = literal("AAC-LD filterbank expected ");
                push_decimal(&mut message, *expected as u64);
                push_literal(&mut message, " spectral lines, got ");
                push_decimal(&mut message, *actual as u64);
                message
            },
        }
    }
}

} // verus!
