//! Errors of subband processing.

use vstd::prelude::*;

use crate::ld_sbr::LdSbrError;

verus! {

/// Why subbands cannot be processed.
#[derive(Debug, Clone, Copy, PartialEq, Eq, Structural)]
pub enum QmfError {
    InvalidSampleCount(usize),
    InvalidPatchBand { source: usize, target: usize },
    EnvelopeLayoutMismatch,
    UnsupportedChannelCount(usize),
    InvalidSubbandCount { expected: usize, actual: usize },
    InverseFilteringLayoutMismatch,
    InvalidTimeStep(u8),
}

/// Why a channel cannot be processed.
#[derive(Debug, Clone, Copy, PartialEq, Eq, Structural)]
pub enum LdSbrProcessingError {
    Syntax(LdSbrError),
    Qmf(QmfError),
    MissingRightChannel,
}

impl From<LdSbrError> for LdSbrProcessingError {
    fn from(value: LdSbrError) -> (error: LdSbrProcessingError) {
        LdSbrProcessingError::Syntax(value)
    }
}

impl vstd::std_specs::convert::FromSpecImpl<LdSbrError> for LdSbrProcessingError {
    open spec fn obeys_from_spec() -> bool {
        true
    }

    open spec fn from_spec(value: LdSbrError) -> LdSbrProcessingError {
        LdSbrProcessingError::Syntax(value)
    }
}

impl From<QmfError> for LdSbrProcessingError {
    fn from(value: QmfError) -> (error: LdSbrProcessingError) {
        LdSbrProcessingError::Qmf(value)
    }
}

impl vstd::std_specs::convert::FromSpecImpl<QmfError> for LdSbrProcessingError {
    open spec fn obeys_from_spec() -> bool {
        true
    }

    open spec fn from_spec(value: QmfError) -> LdSbrProcessingError {
        LdSbrProcessingError::Qmf(value)
    }
}

} // verus!
