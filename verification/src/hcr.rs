//! Reordering of Huffman codewords.
//!
//! The payload is cut into segments. The codewords of highest priority start at
//! the left edges of the segments; the others fill what is left over, set by
//! set and in alternating direction.

pub mod decode;
pub mod encode;
pub mod grid;
pub mod grid_laws;
pub mod laws;
pub mod layout;
pub mod mapping;
pub mod sections;
pub mod segment;
pub mod side_info;

pub use decode::{
    decode_priority_codewords, decode_reordered_codewords, spectral_is_unexpected_eof, try_decode_exact, HcrDecodedCodeword,
    HcrPriorityCodeword,
};
pub use encode::{encode_reordered_codewords, validate_segment_width};
pub use grid::{prepare_segmentation_grid, sorted_codeword_descriptors, CodewordDescriptor, HcrSegment};
pub use mapping::codewords_to_spectral_data;
pub use sections::{hcr_codebook, sections_from_ics, HcrSection};
pub use segment::{
    copy_bit_range, copy_directional_bits, decode_segment_codeword, restore_segment_bits, take_segment_bit, HcrReadDirection,
    HcrSegmentState,
};
pub use side_info::{
    HcrElementType, HcrError, HcrSideInfo, CPE_MAX_REORDERED_SPECTRAL_BITS, MAX_LONGEST_CODEWORD_BITS,
    SCE_MAX_REORDERED_SPECTRAL_BITS,
};
