//! Inverse quantization of spectral coefficients.
pub mod layout;
pub mod value;

pub use layout::{
    inverse_quantize_aac_lc_fixed, inverse_quantize_aac_lc_fixed_bridge, inverse_quantize_spectrum_fixed,
    inverse_quantize_spectrum_fixed_bridge, line_factors, validate_layout, window_groups, FixedInverseQuantizedSpectrum,
    InverseQuantError,
};
pub use value::{
    integer_cuberoot_u128, inverse_quantize_value_fixed, inverse_quantize_value_fixed_bridge,
    inverse_quantize_value_fixed_int, pow43_u16_fractional,
};
