//! Inverse quantization.

use fdk_aac::fixed::{MAXVAL_DBL, MINVAL_DBL_PLUS_ONE};
use fdk_aac::ics::{IcsInfo, WindowSequence, WindowShape};
use fdk_aac::inverse::{
    integer_cuberoot_u128, inverse_quantize_aac_lc_fixed, inverse_quantize_aac_lc_fixed_bridge,
    inverse_quantize_spectrum_fixed, inverse_quantize_spectrum_fixed_bridge, inverse_quantize_value_fixed,
    inverse_quantize_value_fixed_bridge, inverse_quantize_value_fixed_int, line_factors, pow43_u16_fractional,
    validate_layout, window_groups, InverseQuantError,
};
use fdk_aac::scalefactor::ScalefactorData;
use fdk_aac::sfb::{ScaleFactorBandInfo, SfbError};
use fdk_aac::spectral::SpectralData;

/// The value of a coefficient in floating point, as a fraction of 31 bits.
fn reference_value(quantized: i32, scalefactor: i16) -> i32 {
    let magnitude = (quantized.abs() as f32).powf(4.0 / 3.0);
    let value = magnitude * 2.0f32.powf(0.25 * scalefactor as f32);
    if value >= 1.0 {
        MAXVAL_DBL
    } else {
        (value * 2_147_483_648.0).round() as i32
    }
}

fn ics(window_group_lengths: Vec<u8>, max_sfb: u8) -> IcsInfo {
    IcsInfo {
        window_sequence: if window_group_lengths.iter().sum::<u8>() == 1 {
            WindowSequence::OnlyLong
        } else {
            WindowSequence::EightShort
        },
        window_shape: WindowShape::Sine,
        max_sfb,
        total_sfb: max_sfb,
        predictor_data_present: false,
        scale_factor_grouping: 0,
        window_group_lengths,
        bits_read: 0,
    }
}

#[test]
fn fixed_bridge_inverse_quantizes_single_values() {
    assert_eq!(inverse_quantize_value_fixed_bridge(0, 100), 0);
    assert_eq!(inverse_quantize_value_fixed_bridge(1, -4), 0x4000_0000);
    assert_eq!(inverse_quantize_value_fixed_bridge(-1, -4), -0x4000_0000);
    assert_eq!(inverse_quantize_value_fixed_bridge(1, 0), MAXVAL_DBL);
    assert_eq!(
        inverse_quantize_value_fixed_bridge(-8, 0),
        MINVAL_DBL_PLUS_ONE
    );
}

#[test]
fn fixed_inverse_quantizes_single_values_without_f32_fallback() {
    assert_eq!(inverse_quantize_value_fixed(0, 100), 0);
    assert_eq!(inverse_quantize_value_fixed(1, -4), 0x4000_0000);
    assert_eq!(inverse_quantize_value_fixed(-1, -4), -0x4000_0000);
    assert_eq!(inverse_quantize_value_fixed(1, 0), MAXVAL_DBL);
}

#[test]
fn fixed_integer_inverse_quantizes_scalefactor_multiples_of_four() {
    assert_eq!(inverse_quantize_value_fixed_int(0, 0), Some(0));
    assert_eq!(inverse_quantize_value_fixed_int(1, -4), Some(0x4000_0000));
    assert_eq!(inverse_quantize_value_fixed_int(-1, -4), Some(-0x4000_0000));
    assert_eq!(inverse_quantize_value_fixed_int(1, -8), Some(0x2000_0000));
}

#[test]
fn fixed_integer_inverse_quantizes_all_scalefactor_remainders() {
    for scalefactor in -8..=8 {
        let fixed = inverse_quantize_value_fixed_int(1, scalefactor).unwrap();
        let reference = reference_value(1, scalefactor);
        assert!(
            (fixed as i64 - reference as i64).abs() <= 16_384,
            "scalefactor={scalefactor}, fixed={fixed}, reference={reference}"
        );
    }
}

#[test]
fn integer_pow43_q16_tracks_exact_cubes() {
    assert_eq!(pow43_u16_fractional(1), 1 << 16);
    assert_eq!(pow43_u16_fractional(8), 16 << 16);
    assert_eq!(pow43_u16_fractional(27), 81 << 16);
}

#[test]
fn fixed_bridge_inverse_quantizes_bands_per_grouped_window() {
    let ics = ics(vec![2], 2);
    let spectral = SpectralData {
        windows: vec![vec![1, -1, 0, 0, 1, 1, 0, 0], vec![0, 0, 0, 0, -1, 1, 0, 0]],
    };
    let scalefactors = ScalefactorData {
        values: vec![vec![-4, -4]],
    };
    let sfb = ScaleFactorBandInfo {
        offsets: &[0, 4, 8],
        num_bands: 2,
        granule_length: 8,
    };

    let fixed =
        inverse_quantize_spectrum_fixed_bridge(&spectral, &scalefactors, &ics, sfb).unwrap();

    assert_eq!(fixed.windows[0][0], 0x4000_0000);
    assert_eq!(fixed.windows[0][1], -0x4000_0000);
    assert_eq!(fixed.windows[0][4], 0x4000_0000);
    assert_eq!(fixed.windows[1][4], -0x4000_0000);
}

#[test]
fn integer_inverse_saturates_extreme_scalefactors_and_signs() {
    assert_eq!(
        inverse_quantize_value_fixed_int(i32::MAX, i16::MAX),
        Some(MAXVAL_DBL)
    );
    assert_eq!(
        inverse_quantize_value_fixed_int(i32::MIN, i16::MAX),
        Some(MINVAL_DBL_PLUS_ONE)
    );
    assert_eq!(inverse_quantize_value_fixed_int(1, i16::MIN), Some(0));
    assert_eq!(inverse_quantize_value_fixed_bridge(1, -4), 0x4000_0000);
}

#[test]
fn integer_cube_root_covers_zero_exact_and_floor_results() {
    assert_eq!(pow43_u16_fractional(0), 0);
    assert_eq!(integer_cuberoot_u128(0), 0);
    assert_eq!(integer_cuberoot_u128(1), 1);
    assert_eq!(integer_cuberoot_u128(8), 2);
    assert_eq!(integer_cuberoot_u128(26), 2);
    assert_eq!(integer_cuberoot_u128(27), 3);
}

#[test]
fn fixed_aac_wrappers_match_direct_table_path() {
    let ics = ics(vec![1], 1);
    let spectral = SpectralData {
        windows: vec![vec![0; 1024]],
    };
    let scalefactors = ScalefactorData {
        values: vec![vec![-4]],
    };
    let direct = inverse_quantize_aac_lc_fixed(&spectral, &scalefactors, 4, &ics).unwrap();
    assert_eq!(
        inverse_quantize_aac_lc_fixed_bridge(&spectral, &scalefactors, 4, &ics).unwrap(),
        direct
    );
    assert_eq!(direct.windows, vec![vec![0; 1024]]);
}

#[test]
fn layout_validator_reports_each_dimension_mismatch() {
    let ics = ics(vec![1], 1);
    let sfb = ScaleFactorBandInfo {
        offsets: &[0, 4],
        num_bands: 1,
        granule_length: 4,
    };
    let factors = ScalefactorData {
        values: vec![vec![0]],
    };
    assert_eq!(
        inverse_quantize_spectrum_fixed(
            &SpectralData {
                windows: Vec::new()
            },
            &factors,
            &ics,
            sfb
        ),
        Err(InverseQuantError::LayoutMismatch)
    );
    assert_eq!(
        inverse_quantize_spectrum_fixed(
            &SpectralData {
                windows: vec![vec![0; 3]]
            },
            &factors,
            &ics,
            sfb
        ),
        Err(InverseQuantError::LayoutMismatch)
    );
    assert_eq!(
        inverse_quantize_spectrum_fixed(
            &SpectralData {
                windows: vec![vec![0; 4]]
            },
            &ScalefactorData {
                values: vec![vec![]]
            },
            &ics,
            sfb
        ),
        Err(InverseQuantError::LayoutMismatch)
    );
    let too_many_bands = ScaleFactorBandInfo {
        num_bands: 0,
        ..sfb
    };
    assert!(matches!(
        inverse_quantize_spectrum_fixed(
            &SpectralData {
                windows: vec![vec![0; 4]]
            },
            &factors,
            &ics,
            too_many_bands
        ),
        Err(InverseQuantError::Sfb(SfbError::MaxSfbOutOfRange { .. }))
    ));
}

#[test]
fn formats_and_converts_inverse_errors() {
    let sfb = SfbError::UnsupportedSamplingFrequencyIndex(13);
    assert_eq!(
        InverseQuantError::from(sfb.clone()),
        InverseQuantError::Sfb(sfb.clone())
    );
    assert_eq!(
        InverseQuantError::Sfb(sfb.clone()).to_string(),
        sfb.to_string()
    );
    assert_eq!(
        InverseQuantError::LayoutMismatch.to_string(),
        "AAC inverse quantization layout mismatch"
    );
}

#[test]
fn rejects_layout_mismatch() {
    let ics = ics(vec![1], 1);
    let spectral = SpectralData {
        windows: vec![vec![0; 4]],
    };
    let scalefactors = ScalefactorData { values: vec![] };
    let sfb = ScaleFactorBandInfo {
        offsets: &[0, 4],
        num_bands: 1,
        granule_length: 4,
    };

    assert_eq!(
        inverse_quantize_spectrum_fixed(&spectral, &scalefactors, &ics, sfb).unwrap_err(),
        InverseQuantError::LayoutMismatch
    );
    assert_eq!(
        validate_layout(&spectral, &scalefactors, &ics, sfb),
        Err(InverseQuantError::LayoutMismatch)
    );
}

#[test]
fn windows_and_lines_find_their_scale_factors() {
    assert_eq!(window_groups(&vec![1, 0, 3, 2]), [0, 2, 2, 2, 3, 3]);
    let sfb = ScaleFactorBandInfo {
        offsets: &[0, 2, 3, 4],
        num_bands: 3,
        granule_length: 6,
    };
    assert_eq!(
        line_factors(&vec![7, -9, 5], sfb, 2),
        [Some(7), Some(7), Some(-9), None, None, None]
    );
}

#[test]
fn values_are_odd_and_grow() {
    for scalefactor in [-120, -63, -8] {
        let mut last = 0;
        for quantized in 1..200 {
            let value = inverse_quantize_value_fixed(quantized, scalefactor);
            assert_eq!(inverse_quantize_value_fixed(-quantized, scalefactor), -value);
            assert!(value >= last);
            last = value;
        }
    }
    // Eight to the power of four thirds is sixteen.
    assert_eq!(inverse_quantize_value_fixed(8, -32), 0x0800_0000);
    assert_eq!(inverse_quantize_value_fixed(-27, -32), -81 * 0x0080_0000);
}

#[test]
fn magnitudes_out_of_range_share_the_largest_root() {
    assert_eq!(integer_cuberoot_u128(u128::MAX), 7 << 40);
    assert_eq!(integer_cuberoot_u128(u128::MAX - 1), 6_981_463_658_331);
    assert_eq!(pow43_u16_fractional(1 << 20), 7 << 40);
    assert_eq!(pow43_u16_fractional((1 << 20) - 1), 6_981_454_780_942);
    assert_eq!(inverse_quantize_value_fixed(1 << 20, -200), 224);
    assert_eq!(inverse_quantize_value_fixed(i32::MIN, -200), -224);
    assert_eq!(inverse_quantize_value_fixed((1 << 20) - 1, -200), 203);
}

#[test]
fn values_grow_with_the_scale_factor() {
    for quantized in [1, 2, 7, 1000, 8191, 1 << 21] {
        let mut last = 0;
        for scalefactor in -300..40 {
            let value = inverse_quantize_value_fixed(quantized, scalefactor);
            assert!(value >= last);
            last = value;
        }
        assert_eq!(last, MAXVAL_DBL);
    }
}
