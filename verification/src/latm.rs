//! The low-overhead transport of audio frames: multiplex elements, their
//! configuration, and the writers and parsers of both.
pub mod element;
pub mod error;
pub mod laws;
pub mod mux;
pub mod stream_laws;
pub mod values;
pub mod writer;

pub use element::{ElementFields, LatmAudioMuxElement, LatmPayload, PayloadFields};
pub use error::LatmError;
pub use mux::{
    parse_stream_mux_config_aac_lc, validate_audio_specific_config, LatmMuxConfig, LatmStreamLayer, MuxFields, StreamFields,
};
pub use values::{read_latm_value, read_packed_bits, read_payload_length_bytes};
pub use writer::{LatmAacLcWriter, LatmWriter};
