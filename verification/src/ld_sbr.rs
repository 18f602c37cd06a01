//! Low-delay spectral band replication: the syntax of frames up to integer
//! envelope and noise values and the exponents of their energies.

pub mod books;
pub mod delta;
pub mod delta_laws;
pub mod energy;
pub mod error;
pub mod frame;
pub mod frequency;
pub mod grid;
pub mod log2;
pub mod shaping_laws;
pub mod syntax_laws;
pub mod tree;
pub mod value_laws;
pub mod values;
pub mod widths;

pub use books::{
    ENV_BALANCE_10_F, ENV_BALANCE_10_T, ENV_BALANCE_11_F, ENV_BALANCE_11_T, ENV_LEVEL_10_F, ENV_LEVEL_10_T, ENV_LEVEL_11_F,
    ENV_LEVEL_11_T, NOISE_BALANCE_11_T, NOISE_LEVEL_11_T,
};
pub use delta::{low_to_high, map_to_high, LdSbrPreviousValues};
pub use energy::{LdSbrCoupledExponents, LdSbrEnergyExponents, SharedEnergy};
pub use error::LdSbrError;
pub use frame::{parse_frame_header, read_add_harmonics, read_extended_data, LdSbrFrame, LdSbrFrameParser};
pub use frequency::{cumulative, downsample_borders, make_master, start_band, stop_band, LdSbrFrequencyTables};
pub use grid::{
    fixed_borders, read_channel_control, transient_row, LdSbrChannelControl, LdSbrChannelElementPrefix, LdSbrGrid,
};
pub use tree::{decode_sbr_huffman, encode_sbr_huffman, SbrHuffmanBook};
pub use values::{read_envelopes, read_envelopes_usac, read_invf, read_noise, LdSbrChannelValues};
pub use widths::{logarithmic_widths, logarithmic_widths_for_density};
