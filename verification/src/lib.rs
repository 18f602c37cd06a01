//! Integer kernels of an AAC codec: bit streams, Huffman coding, codeword
//! reordering, transport multiplexing and fixed-point signal processing.

pub mod asc;
pub mod bits;
pub mod codebook_laws;
pub mod huffman;
pub mod huffman_tables;
pub mod encoder_metadata;
pub mod filterbank;
pub mod fixed;
pub mod fixed_fft;
pub mod hcr;
pub mod ics;
pub mod inverse;
pub mod latm;
pub mod ld_filterbank;
pub mod ld_sbr;
pub mod ld_sbr_qmf;
pub mod rom;
pub mod scalefactor;
pub mod section;
pub mod sfb;
pub mod spectral;
pub mod spectral_laws;
pub mod text;
pub mod usac_sbr;
