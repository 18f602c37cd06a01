//! Errors of the filterbank.

use vstd::prelude::*;

use crate::ics::{WindowSequence, WindowShape};
use crate::text::{decimal_text, literal, numbered, numbered_text, push_decimal, push_literal};

verus! {

/// Why a frame cannot be synthesized.
#[derive(Debug, Clone, Copy, PartialEq, Eq, Structural)]
pub enum FilterbankError {
    ExpectedEightShortWindows { actual: usize },
    ExpectedOneLongWindow { actual: usize },
    InvalidFrameLength(usize),
    SpectrumLengthMismatch { expected: usize, actual: usize },
    UnsupportedWindowSequence(WindowSequence),
    UnsupportedWindowShape(WindowShape),
}

impl FilterbankError {
    /// The diagnostic of this error.
    pub open spec fn message(self) -> Seq<char> {
        match self {
            FilterbankError::ExpectedEightShortWindows { actual } => numbered(
                "expected eight short-window spectra, got ",
                actual as nat,
                "",
            ),
            FilterbankError::ExpectedOneLongWindow { actual } => numbered(
                "expected one long-window spectrum, got ",
                actual as nat,
                "",
            ),
            FilterbankError::InvalidFrameLength(length) => numbered("invalid filterbank frame length ", length as nat, ""),
            FilterbankError::SpectrumLengthMismatch { expected, actual } => "spectrum length mismatch: expected "@
                + decimal_text(expected as nat) + ", got "@ + decimal_text(actual as nat),
            FilterbankError::UnsupportedWindowSequence(sequence) => "unsupported AAC window sequence "@ + sequence.name(),
            FilterbankError::UnsupportedWindowShape(shape) => "unsupported AAC window shape "@ + shape.name(),
        }
    }

    /// Renders the diagnostic of this error.
    pub fn to_string(&self) -> (message: String)
        ensures
            message@ == self.message(),
    {
        match self {
            FilterbankError::ExpectedEightShortWindows { actual } => numbered_text(
                "expected eight short-window spectra, got ",
                *actual as u64,
                "",
            ),
            FilterbankError::ExpectedOneLongWindow { actual } => numbered_text(
                "expected one long-window spectrum, got ",
                *actual as u64,
                "",
            ),
            FilterbankError::InvalidFrameLength(length) => numbered_text(
                "invalid filterbank frame length ",
                *length as u64,
                "",
            ),
            FilterbankError::SpectrumLengthMismatch { expected, actual } => {
                let mut message: String = literal("spectrum length mismatch: expected ");
                push_decimal(&mut message, *expected as u64);
                push_literal(&mut message, ", got ");
                push_decimal(&mut message, *actual as u64);
                message
            },
            FilterbankError::UnsupportedWindowSequence(sequence) => {
                let mut message: String = literal("unsupported AAC window sequence ");
                sequence.push_name(&mut message);
                message
            },
            FilterbankError::UnsupportedWindowShape(shape) => {
                let mut message: String = literal("unsupported AAC window shape ");
                shape.push_name(&mut message);
                message
            },
        }
    }
}

} // verus!
