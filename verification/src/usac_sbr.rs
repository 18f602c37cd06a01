//! Envelope shaping of unified speech and audio frames.

use vstd::prelude::*;

verus! {

/// The shaping of one envelope between its borders.
#[derive(Debug, Clone, Copy, PartialEq, Eq, Structural)]
pub struct InterTesEnvelope {
    pub active: bool,
    pub mode: u8,
}

} // verus!
