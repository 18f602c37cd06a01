//! Sections of scale-factor bands that share a codebook.

use vstd::prelude::*;

verus! {

/// A run of bands of one window group with one codebook.
#[derive(Debug, Clone, Copy, PartialEq, Eq, Structural)]
pub struct Section {
    pub group: u8,
    pub start_sfb: u8,
    pub end_sfb: u8,
    pub codebook: u8,
}

/// The sections of a channel and the codebook of each band of each group.
#[derive(Debug, Clone, PartialEq, Eq)]
pub struct SectionData {
    pub sections: Vec<Section>,
    pub codebooks: Vec<Vec<u8>>,
    pub bits_read: usize,
}

} // verus!
