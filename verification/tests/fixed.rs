//! Fixed-point primitives.

use fdk_aac::fixed::{
    dbl_to_pcm16, dbl_to_sgl, fixnormz_d, fixnormz_s, get_scalefactor_dbl, get_scalefactor_pcm_stride, get_scalefactor_sgl,
    mul_q31, pcm16_to_dbl, saturating_add_dbl, saturating_sub_dbl, scale_value, scale_value_saturate,
    scale_value_sgl_saturate, scale_values, scale_values_pcm16_from_dbl, scale_values_saturate, scale_values_saturate_from,
    scale_values_sgl_saturate, scale_values_sgl_saturate_from, sgl_to_dbl, MAXVAL_DBL, MAXVAL_SGL, MINVAL_DBL_PLUS_ONE,
    MINVAL_SGL,
};

#[test]
fn saturating_scale_clamps_positive_and_negative() {
    assert_eq!(scale_value_saturate(0x4000_0000, 1), MAXVAL_DBL);
    assert_eq!(scale_value_saturate(-0x4000_0000, 2), MINVAL_DBL_PLUS_ONE);
    assert_eq!(scale_value_saturate(0x4000_0000, -1), 0x2000_0000);
}

#[test]
fn vector_scale_saturates() {
    let mut values = [0x1000_0000, 0x4000_0000, -0x4000_0000];
    scale_values_saturate(&mut values, 2);
    assert_eq!(values, [0x4000_0000, MAXVAL_DBL, MINVAL_DBL_PLUS_ONE]);
}

#[test]
fn converts_between_single_and_double_precision() {
    assert_eq!(sgl_to_dbl(0x4000), 0x4000_0000);
    assert_eq!(dbl_to_sgl(0x4000_1234), 0x4000);
    assert_eq!(pcm16_to_dbl(-0x4000), -0x4000_0000);
    assert_eq!(dbl_to_pcm16(-0x4000_1234), -0x4001);
    assert_eq!(sgl_to_dbl(i16::MIN), i32::MIN);
    assert_eq!(sgl_to_dbl(-1), -0x1_0000);
}

#[test]
fn single_precision_scale_uses_double_saturation_path() {
    assert_eq!(scale_value_sgl_saturate(0x4000, 1), MAXVAL_SGL);
    assert_eq!(scale_value_sgl_saturate(-0x4000, 2), MINVAL_SGL);

    let mut values = [0x1000, 0x4000, -0x4000];
    scale_values_sgl_saturate(&mut values, 2);
    assert_eq!(values, [0x4000, MAXVAL_SGL, MINVAL_SGL]);
}

#[test]
fn pcm16_scaling_from_double_precision() {
    let src = [0x4000_0000, -0x4000_0000, 0x1000_0000];
    let mut dst = [0i16; 3];
    scale_values_pcm16_from_dbl(&mut dst, &src, 1);
    assert_eq!(dst, [MAXVAL_SGL, MINVAL_SGL, 0x2000]);
}

#[test]
fn scalefactor_for_dbl_matches_headroom_expectations() {
    assert_eq!(get_scalefactor_dbl(&[0, 0]), 31);
    assert_eq!(get_scalefactor_dbl(&[0x4000_0000]), 0);
    assert_eq!(get_scalefactor_dbl(&[0x1000_0000]), 2);
    assert_eq!(get_scalefactor_dbl(&[-0x1000_0000]), 3);
}

#[test]
fn scalefactor_for_pcm_stride() {
    let pcm = [1i16, 100, 2, 200, 3, 300];
    assert!(get_scalefactor_pcm_stride(&pcm, 3, 2) > 0);
    assert_eq!(get_scalefactor_pcm_stride(&[0, 0], 2, 1), 15);
}

#[test]
fn q31_multiply_saturates_fractional_domain() {
    assert_eq!(mul_q31(0x4000_0000, 0x4000_0000), 0x2000_0000);
    assert_eq!(mul_q31(i32::MIN, i32::MIN), MAXVAL_DBL);
}

#[test]
fn wrapping_scalar_and_vector_scaling_cover_all_directions() {
    assert_eq!(scale_value(3, 2), 12);
    assert_eq!(scale_value(-16, -2), -4);
    assert_eq!(scale_value(1, 99), i32::MIN);

    let mut unchanged = [1, -2];
    scale_values(&mut unchanged, 0);
    assert_eq!(unchanged, [1, -2]);
    scale_values(&mut unchanged, 2);
    assert_eq!(unchanged, [4, -8]);
    scale_values(&mut unchanged, -1);
    assert_eq!(unchanged, [2, -4]);

    scale_values_saturate(&mut unchanged, 0);
    assert_eq!(unchanged, [2, -4]);
}

#[test]
fn copy_scalers_match_in_place_scalers() {
    let source = [0x4000_0000, -0x4000_0000];
    let mut double = [0; 2];
    scale_values_saturate_from(&mut double, &source, 1);
    assert_eq!(double, [MAXVAL_DBL, MINVAL_DBL_PLUS_ONE]);

    let source = [0x4000i16, -0x4000];
    let mut single = [0; 2];
    scale_values_sgl_saturate_from(&mut single, &source, 1);
    assert_eq!(single, [MAXVAL_SGL, MINVAL_SGL]);

    scale_values_sgl_saturate(&mut single, 0);
    assert_eq!(single, [MAXVAL_SGL, MINVAL_SGL]);
}

#[test]
fn extreme_right_shift_and_saturating_arithmetic_are_bounded() {
    assert_eq!(scale_value_saturate(i32::MAX, -31), 0);
    assert_eq!(scale_value_saturate(i32::MIN, -99), 0);
    assert_eq!(saturating_add_dbl(i32::MAX, 1), MAXVAL_DBL);
    assert_eq!(
        saturating_add_dbl(MINVAL_DBL_PLUS_ONE, -1),
        MINVAL_DBL_PLUS_ONE
    );
    assert_eq!(saturating_sub_dbl(i32::MAX, -1), MAXVAL_DBL);
    assert_eq!(
        saturating_sub_dbl(MINVAL_DBL_PLUS_ONE, 1),
        MINVAL_DBL_PLUS_ONE
    );
    assert_eq!(saturating_add_dbl(7, -3), 4);
    assert_eq!(saturating_sub_dbl(7, 3), 4);
}

#[test]
fn single_scalefactor_and_normalization_cover_zero_and_signs() {
    assert_eq!(get_scalefactor_sgl(&[0, 0]), 15);
    assert_eq!(get_scalefactor_sgl(&[0x1000]), 2);
    assert_eq!(get_scalefactor_sgl(&[-0x1000]), 3);
    assert_eq!(get_scalefactor_pcm_stride(&[], 0, 0), 31);
    assert_eq!(fixnormz_d(0), 32);
    assert_eq!(fixnormz_d(1), 31);
    assert_eq!(fixnormz_s(0), 16);
    assert_eq!(fixnormz_s(1), 15);
}
