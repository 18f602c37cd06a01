//! The header of low-delay spectral band replication.

use vstd::prelude::*;

verus! {

/// The parameters of spectral band replication. Fields that were not sent are
/// `None`.
#[derive(Debug, Clone, Copy, PartialEq, Eq, Structural)]
pub struct LdSbrHeader {
    pub amp_resolution: bool,
    pub crossover_band: u8,
    pub reserved: u8,
    pub start_frequency: u8,
    pub stop_frequency: u8,
    pub frequency_scale: Option<u8>,
    pub alter_scale: Option<bool>,
    pub noise_bands: Option<u8>,
    pub limiter_bands: Option<u8>,
    pub limiter_gains: Option<u8>,
    pub interpol_frequency: Option<bool>,
    pub smoothing_mode: Option<bool>,
}

impl Default for LdSbrHeader {
    fn default() -> (header: LdSbrHeader)
        ensures
            header == (LdSbrHeader {
                amp_resolution: false,
                crossover_band: 0,
                reserved: 0,
                start_frequency: 0,
                stop_frequency: 0,
                frequency_scale: None,
                alter_scale: None,
                noise_bands: None,
                limiter_bands: None,
                limiter_gains: None,
                interpol_frequency: None,
                smoothing_mode: None,
            }),
    {
        LdSbrHeader {
            amp_resolution: false,
            crossover_band: 0,
            reserved: 0,
            start_frequency: 0,
            stop_frequency: 0,
            frequency_scale: None,
            alter_scale: None,
            noise_bands: None,
            limiter_bands: None,
            limiter_gains: None,
            interpol_frequency: None,
            smoothing_mode: None,
        }
    }
}

} // verus!
