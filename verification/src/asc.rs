//! Audio configuration: the decoder settings that a transport announces.
pub mod config;
pub mod laws;
pub mod ld_sbr_header;
pub mod reading;
pub mod writing;

pub use config::{
    AscError, AscExtension, AscFields, AudioSpecificConfig, EldSpecificConfig, GaSpecificConfig, ResilienceFlags, UsacConfig,
    UsacElementConfig, UsacFields,
};
pub use ld_sbr_header::LdSbrHeader;
