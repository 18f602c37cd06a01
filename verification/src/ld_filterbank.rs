//! The low-delay synthesis filterbank.
pub mod bank;
pub mod error;
pub mod laws;
pub mod rom;

pub use bank::LowDelayFilterbankQ31;
pub use error::LdFilterbankError;
pub use rom::{parse_wtc_array_q31_from, synthesis_coefficients_q31, validate_coefficient_count};
