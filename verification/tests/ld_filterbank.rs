//! The low-delay filterbank, with coefficients and cosines made in floating
//! point.

use fdk_aac::fixed::{clamp_i128_to_i32, round_shift_i128};
use fdk_aac::ld_filterbank::{
    parse_wtc_array_q31_from, synthesis_coefficients_q31, validate_coefficient_count, LdFilterbankError, LowDelayFilterbankQ31,
};

fn f64_to_q31(value: f64) -> i32 {
    (value * 2_147_483_648.0).round().clamp(i32::MIN as f64, i32::MAX as f64) as i32
}

fn coefficients(frame_length: usize) -> Vec<i32> {
    (0..3 * frame_length)
        .map(|index| f64_to_q31(0.4 * (index as f64 * 0.01).sin()))
        .collect()
}

fn kernel(frame_length: usize) -> Vec<i32> {
    let phase = std::f64::consts::PI / frame_length as f64;
    let normalization = (2.0 / frame_length as f64).sqrt();
    let mut kernel = Vec::with_capacity(frame_length * frame_length);
    for output in 0..frame_length {
        for input in 0..frame_length {
            kernel.push(f64_to_q31(
                (phase * (input as f64 + 0.5) * (output as f64 + 0.5)).cos() * normalization,
            ));
        }
    }
    kernel
}

fn fixed_bank(frame_length: usize) -> Result<LowDelayFilterbankQ31, LdFilterbankError> {
    LowDelayFilterbankQ31::new(frame_length, coefficients(frame_length), kernel(frame_length))
}

fn rom_text(name: &str, values: &[i32]) -> Vec<u8> {
    let mut text = format!("const FIXP_WTB {name}[] = {{ ");
    for value in values {
        text.push_str(&format!("WTC(0x{value:08x}), "));
    }
    text.push_str("};");
    text.into_bytes()
}

#[test]
fn zero_input_preserves_zero_state_and_output() {
    for length in [480, 512] {
        let mut filterbank = fixed_bank(length).unwrap();
        assert!(filterbank
            .process(&vec![0; length])
            .unwrap()
            .iter()
            .all(|&sample| sample == 0));
        assert!(filterbank.state().iter().all(|&sample| sample == 0));
    }
}

#[test]
fn impulse_updates_state_and_produces_finite_output() {
    let mut filterbank = fixed_bank(512).unwrap();
    let mut spectrum = vec![0; 512];
    spectrum[0] = 1 << 28;
    let output = filterbank.process(&spectrum).unwrap();
    assert!(output.iter().any(|&sample| sample != 0));
    assert!(filterbank.state().iter().any(|&sample| sample != 0));
}

#[test]
fn rejects_unsupported_lengths_and_spectrum_mismatches() {
    for length in [0, 256, 1024] {
        assert_eq!(
            synthesis_coefficients_q31(b"", length),
            Err(LdFilterbankError::UnsupportedFrameLength(length))
        );
        assert!(matches!(
            fixed_bank(length),
            Err(LdFilterbankError::UnsupportedFrameLength(value)) if value == length
        ));
    }
    let mut fixed = fixed_bank(480).unwrap();
    assert_eq!(
        fixed.process(&[0]),
        Err(LdFilterbankError::SpectrumLengthMismatch {
            expected: 480,
            actual: 1
        })
    );
}

#[test]
fn q31_exponent_scaling_covers_positive_negative_and_extreme_shifts() {
    for exponent in [24, 22, i16::MAX, i16::MIN] {
        let mut filterbank = fixed_bank(480).unwrap();
        let mut spectrum = vec![0; 480];
        spectrum[0] = 0x1000_0000;
        let output = filterbank
            .process_with_exponent(&spectrum, exponent)
            .unwrap();
        assert_eq!(output.len(), 480);
        assert_eq!(filterbank.state().len(), 960);
    }
}

#[test]
fn numeric_helpers_round_and_clamp_both_signs() {
    assert_eq!(f64_to_q31(2.0), i32::MAX);
    assert_eq!(f64_to_q31(-2.0), i32::MIN);
    assert_eq!(f64_to_q31(0.5), 0x4000_0000);
    assert_eq!(round_shift_i128(7, 0), 7);
    assert_eq!(round_shift_i128(7, 2), 2);
    assert_eq!(round_shift_i128(-7, 2), -2);
    assert_eq!(clamp_i128_to_i32(i128::MAX), i32::MAX);
    assert_eq!(clamp_i128_to_i32(i128::MIN), i32::MIN);
    assert_eq!(clamp_i128_to_i32(7), 7);
}

#[test]
fn rom_parser_reports_missing_names_and_preserves_q31_conversion() {
    let source = rom_text("LowDelaySynthesis480", &coefficients(480));
    assert_eq!(parse_wtc_array_q31_from(&source, b"LowDelaySynthesis999"), None);
    let q31 = parse_wtc_array_q31_from(&source, b"LowDelaySynthesis480").unwrap();
    assert_eq!(q31, coefficients(480));

    assert_eq!(
        parse_wtc_array_q31_from(
            b"LowDelaySynthesisTest { WTC(0x12345678) };",
            b"LowDelaySynthesisTest",
        ),
        Some(vec![0x1234_5678])
    );
    assert_eq!(
        parse_wtc_array_q31_from(
            b"LowDelaySynthesisTest { WTC(0x1234 };",
            b"LowDelaySynthesisTest",
        ),
        None
    );
    assert_eq!(
        parse_wtc_array_q31_from(
            b"LowDelaySynthesisTest { WTC(0xzzzzzzzz) };",
            b"LowDelaySynthesisTest",
        ),
        None
    );
    assert_eq!(
        parse_wtc_array_q31_from(b"LowDelaySynthesisTest", b"LowDelaySynthesisTest"),
        None
    );
    assert_eq!(
        parse_wtc_array_q31_from(b"LowDelaySynthesisTest {", b"LowDelaySynthesisTest"),
        None
    );
}

#[test]
fn coefficient_count_validator_reports_actual_length() {
    assert_eq!(validate_coefficient_count(480, 2, &[1, 2]), Ok(&[1, 2][..]));
    assert_eq!(
        validate_coefficient_count::<i32>(480, 1440, &[]),
        Err(LdFilterbankError::InvalidCoefficientCount {
            frame_length: 480,
            expected: 1440,
            actual: 0,
        })
    );
}

#[test]
fn formats_every_low_delay_filterbank_error() {
    for error in [
        LdFilterbankError::UnsupportedFrameLength(256),
        LdFilterbankError::InvalidCoefficientCount {
            frame_length: 480,
            expected: 1440,
            actual: 0,
        },
        LdFilterbankError::SpectrumLengthMismatch {
            expected: 480,
            actual: 1,
        },
    ] {
        assert!(!error.to_string().is_empty());
    }
}

#[test]
fn coefficients_are_read_from_their_table() {
    for frame_length in [480, 512] {
        let values = coefficients(frame_length);
        let mut source = rom_text(&format!("LowDelaySynthesis{frame_length}"), &values);
        assert_eq!(synthesis_coefficients_q31(&source, frame_length), Ok(values));
        source = rom_text(&format!("LowDelaySynthesis{frame_length}"), &[1, -2]);
        assert_eq!(
            synthesis_coefficients_q31(&source, frame_length),
            Err(LdFilterbankError::InvalidCoefficientCount {
                frame_length,
                expected: 3 * frame_length,
                actual: 2,
            })
        );
    }
    assert_eq!(
        parse_wtc_array_q31_from(b"x = { WTC(0xffffffff), WTC(0x80000000) };", b"x"),
        Some(vec![-1, i32::MIN])
    );
}

#[test]
fn wrong_coefficient_counts_give_no_bank() {
    assert_eq!(
        LowDelayFilterbankQ31::new(512, vec![0; 3], kernel(512)).err(),
        Some(LdFilterbankError::InvalidCoefficientCount {
            frame_length: 512,
            expected: 1536,
            actual: 3,
        })
    );
}

#[test]
fn flushing_is_processing_silence() {
    let mut left = fixed_bank(480).unwrap();
    let mut spectrum = vec![0; 480];
    spectrum[7] = 1 << 27;
    left.process(&spectrum).unwrap();
    let mut right = left.clone();
    assert_eq!(left.flush(), right.process(&[0; 480]));
    assert_eq!(left.state(), right.state());
    left.clear_history();
    assert!(left.state().iter().all(|value| *value == 0));
    assert_eq!(left.flush(), Ok(vec![0; 480]));
}

#[test]
fn one_frame_follows_the_formula() {
    // With a kernel that keeps the first line only, the transform is that line.
    let n = 480;
    let mut kernel = vec![0; n * n];
    for row in 0..n {
        kernel[row * n] = 0x4000_0000;
    }
    let mut bank = LowDelayFilterbankQ31::new(n, vec![0x2000_0000; 3 * n], kernel).unwrap();
    let mut spectrum = vec![0; n];
    spectrum[0] = 1 << 20;
    let output = bank.process(&spectrum).unwrap();
    // Half of the line; the state of a new bank adds nothing.
    let line = 1 << 19;
    assert!(bank.state()[..240].iter().all(|value| *value == line));
    assert!(bank.state()[240..480].iter().all(|value| *value == line));
    assert!(bank.state()[480..720].iter().all(|value| *value == line));
    assert!(bank.state()[720..].iter().all(|value| *value == 0));
    // A quarter of it, doubled in the first third of the coefficients.
    assert!(output[..120].iter().all(|value| *value == line / 2));
    assert!(output[120..360].iter().all(|value| *value == line / 4));
    assert!(output[360..].iter().all(|value| *value == line / 2));
}
