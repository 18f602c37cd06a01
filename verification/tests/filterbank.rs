//! The synthesis filterbank, with kernels and windows made in floating point.

use fdk_aac::filterbank::{
    apply_sine_window_q31, block_switching_window, block_switching_window_q31, check_short_spectra, frame_route, imdct_planned_q31, long_sine_frame_route, low_overlap_window, sine_frame_route,
    synthesize_aac_lc_frame_from_fixed_inverse_q31, synthesize_aac_lc_frame_q31, window_for_shape_q31, FilterbankError,
    FixedImdctPlan, FixedLongBlockFilterbank, FrameRoute, Levels, ShapeWindows, WindowSet,
};
use fdk_aac::fixed::{MAXVAL_DBL, MINVAL_DBL_PLUS_ONE};
use fdk_aac::ics::{IcsInfo, WindowSequence, WindowShape};
use fdk_aac::inverse::FixedInverseQuantizedSpectrum;

fn f32_to_q31(value: f32) -> i32 {
    if value >= 1.0 {
        MAXVAL_DBL
    } else if value <= -1.0 {
        MINVAL_DBL_PLUS_ONE
    } else {
        (value * 2_147_483_648.0).round() as i32
    }
}

fn to_q31(values: Vec<f32>) -> Vec<i32> {
    values.into_iter().map(f32_to_q31).collect()
}

fn kernel(n: usize) -> Vec<f32> {
    let scale = std::f32::consts::PI / n as f32;
    let mut kernel = Vec::with_capacity(2 * n * n);
    for sample in 0..2 * n {
        let phase_base = (sample as f32 + 0.5 + n as f32 / 2.0) * scale;
        for k in 0..n {
            kernel.push((phase_base * (k as f32 + 0.5)).cos());
        }
    }
    kernel
}

fn kernel_q31(n: usize) -> Vec<i32> {
    to_q31(kernel(n))
}

fn imdct_f32(spectrum: &[f32]) -> Vec<f32> {
    kernel(spectrum.len())
        .chunks(spectrum.len())
        .map(|row| row.iter().zip(spectrum).map(|(a, b)| a * b).sum())
        .collect()
}

fn sine_window(len: usize) -> Vec<f32> {
    (0..len)
        .map(|i| (std::f32::consts::PI / len as f32 * (i as f32 + 0.5)).sin())
        .collect()
}

fn bessel_i0(x: f32) -> f32 {
    let mut sum = 1.0f32;
    let mut term = 1.0f32;
    let y = (x * x) / 4.0;
    for k in 1..=32 {
        term *= y / ((k * k) as f32);
        sum += term;
        if term.abs() < 1.0e-8 * sum.abs() {
            break;
        }
    }
    sum
}

fn kbd_window(len: usize, alpha: f32) -> Vec<f32> {
    let half = len / 2;
    let kaiser: Vec<f32> = (0..half)
        .map(|i| {
            let ratio = (i as f32 + 0.5) / half as f32;
            bessel_i0(std::f32::consts::PI * alpha * (1.0 - (2.0 * ratio - 1.0).powi(2)).sqrt())
        })
        .collect();
    let norm: f32 = kaiser.iter().sum();
    let mut cumulative = 0.0f32;
    let mut window = vec![0.0f32; len];
    for (i, value) in kaiser.iter().enumerate() {
        cumulative += value;
        window[i] = (cumulative / norm).sqrt();
        window[len - 1 - i] = window[i];
    }
    window
}

fn shape_windows(len: usize) -> ShapeWindows<i32> {
    ShapeWindows {
        sine: to_q31(sine_window(len)),
        kbd: to_q31(match len {
            2048 => kbd_window(2048, 4.0),
            256 => kbd_window(256, 6.0),
            _ => Vec::new(),
        }),
        slope: to_q31(sine_window(2 * (len / 8))),
    }
}

fn window_set(frame_len: usize) -> WindowSet<i32> {
    WindowSet {
        long: shape_windows(2 * frame_len),
        short: shape_windows(256),
    }
}

fn float_windows(len: usize) -> ShapeWindows<f32> {
    ShapeWindows {
        sine: sine_window(len),
        kbd: match len {
            2048 => kbd_window(2048, 4.0),
            256 => kbd_window(256, 6.0),
            _ => Vec::new(),
        },
        slope: sine_window(2 * (len / 8)),
    }
}

fn float_levels() -> Levels<f32> {
    Levels { zero: 0.0, one: 1.0 }
}

fn float_block_window(sequence: WindowSequence, previous: WindowShape, current: WindowShape) -> Vec<f32> {
    let windows = WindowSet {
        long: float_windows(2048),
        short: float_windows(256),
    };
    block_switching_window(1024, sequence, previous, current, &windows, float_levels()).unwrap()
}

fn fixed_plan(n: usize) -> FixedImdctPlan {
    FixedImdctPlan::new(n, kernel_q31(n))
}

fn fixed_bank(frame_len: usize) -> Result<FixedLongBlockFilterbank, FilterbankError> {
    let short = if frame_len == 1024 { Some(fixed_plan(128)) } else { None };
    FixedLongBlockFilterbank::new(frame_len, fixed_plan(frame_len), short, window_set(frame_len))
}

fn only_long_ics(shape: WindowShape) -> IcsInfo {
    ics_with_sequence(WindowSequence::OnlyLong, shape)
}

fn ics_with_sequence(window_sequence: WindowSequence, shape: WindowShape) -> IcsInfo {
    IcsInfo {
        window_sequence,
        window_shape: shape,
        max_sfb: 1,
        total_sfb: 1,
        predictor_data_present: false,
        scale_factor_grouping: 0,
        window_group_lengths: if window_sequence == WindowSequence::EightShort {
            vec![1, 1, 1, 1, 1, 1, 1, 1]
        } else {
            vec![1]
        },
        bits_read: 0,
    }
}

fn eight_short_ics(shape: WindowShape) -> IcsInfo {
    ics_with_sequence(WindowSequence::EightShort, shape)
}

#[test]
fn small_filterbanks_reject_long_start_and_sine_dispatch_rejects_transitions() {
    let mut fixed = fixed_bank(2).unwrap();
    assert_eq!(
        fixed.process_long_window_q31(&[0; 2], WindowSequence::LongStop, WindowShape::Sine),
        Err(FilterbankError::InvalidFrameLength(2))
    );

    assert_eq!(
        sine_frame_route(WindowSequence::LongStart, WindowShape::Sine, 1),
        Err(FilterbankError::UnsupportedWindowSequence(
            WindowSequence::LongStart
        ))
    );
}

#[test]
fn fixed_imdct_plan_matches_f32_reference_for_small_impulse() {
    let spectrum_q31 = [0x4000_0000, 0, 0, 0];
    let spectrum_f32 = [0.5, 0.0, 0.0, 0.0];
    let fixed = imdct_planned_q31(&spectrum_q31, kernel_q31(4));
    let float = imdct_f32(&spectrum_f32);

    assert_eq!(fixed.len(), float.len());
    for (actual, expected) in fixed.iter().zip(float) {
        let actual_f32 = *actual as f32 / 2_147_483_648.0;
        assert!(
            (actual_f32 - expected).abs() < 2.0e-6,
            "actual={actual_f32}, expected={expected}"
        );
    }
}

#[test]
fn fixed_imdct_saturates_large_accumulators() {
    let spectrum_q31 = [MAXVAL_DBL; 4];
    let out = imdct_planned_q31(&spectrum_q31, kernel_q31(4));
    assert_eq!(out.len(), 8);
    assert!(out
        .iter()
        .all(|value| { (MINVAL_DBL_PLUS_ONE..=MAXVAL_DBL).contains(value) }));
}

#[test]
fn fixed_long_sine_filterbank_overlap_adds() {
    let mut fb = fixed_bank(2).unwrap();
    let first = fb.process_only_long_sine_q31(&[0x4000_0000, 0]).unwrap();
    let raw = imdct_planned_q31(&[0x4000_0000, 0], kernel_q31(2));
    let mut windowed = raw.clone();
    apply_sine_window_q31(&mut windowed, &to_q31(sine_window(4)));

    assert_eq!(first.len(), 2);
    assert_eq!(first[0], windowed[0]);
    assert_eq!(first[1], windowed[1]);
    assert_eq!(fb.overlap().len(), 2);

    let second = fb.process_only_long_sine_q31(&[0, 0]).unwrap();
    assert_eq!(second[0], windowed[2]);
    assert_eq!(second[1], windowed[3]);
}

#[test]
fn fixed_block_switching_windows_match_f32_reference() {
    let fixed = block_switching_window_q31(
        1024,
        WindowSequence::LongStart,
        WindowShape::Sine,
        WindowShape::Kbd,
        &window_set(1024),
    )
    .unwrap();
    let float = float_block_window(WindowSequence::LongStart, WindowShape::Sine, WindowShape::Kbd);
    assert_eq!(fixed.len(), float.len());
    for (actual, expected) in fixed.iter().zip(float) {
        let actual_f32 = *actual as f32 / 2_147_483_648.0;
        assert!(
            (actual_f32 - expected).abs() < 2.0e-6,
            "actual={actual_f32}, expected={expected}"
        );
    }
}

#[test]
fn fixed_long_window_tracks_current_shape() {
    let mut fb = fixed_bank(1024).unwrap();
    let zero = vec![0; 1024];
    let pcm = fb
        .process_long_window_q31(&zero, WindowSequence::LongStart, WindowShape::Kbd)
        .unwrap();
    assert_eq!(pcm.len(), 1024);
    assert!(pcm.iter().all(|sample| *sample == 0));
    assert_eq!(fb.previous_window_shape(), WindowShape::Kbd);

    let pcm = fb
        .process_long_window_q31(&zero, WindowSequence::LongStop, WindowShape::Sine)
        .unwrap();
    assert_eq!(pcm.len(), 1024);
    assert!(pcm.iter().all(|sample| *sample == 0));
    assert_eq!(fb.previous_window_shape(), WindowShape::Sine);
}

#[test]
fn fixed_eight_short_window_places_short_windows() {
    let mut fb = fixed_bank(1024).unwrap();
    let mut spectra = vec![vec![0; 128]; 8];
    spectra[0][0] = 0x4000_0000;
    spectra[7][0] = 0x4000_0000;

    let pcm = fb
        .process_eight_short_window_q31(&spectra, WindowShape::Sine)
        .unwrap();
    assert_eq!(pcm.len(), 1024);
    assert!(pcm[..448].iter().all(|sample| *sample == 0));
    assert!(pcm[448..704].iter().any(|sample| *sample != 0));
    assert!(fb.overlap().iter().any(|sample| *sample != 0));
    assert_eq!(fb.previous_window_shape(), WindowShape::Sine);
}

#[test]
fn fixed_synthesize_dispatches_long_and_short_frames() {
    let mut fb = fixed_bank(1024).unwrap();
    let long = vec![vec![0; 1024]];
    let pcm =
        synthesize_aac_lc_frame_q31(&long, &only_long_ics(WindowShape::Sine), &mut fb).unwrap();
    assert_eq!(pcm.len(), 1024);
    assert!(pcm.iter().all(|sample| *sample == 0));

    let short = vec![vec![0; 128]; 8];
    let pcm = synthesize_aac_lc_frame_q31(&short, &eight_short_ics(WindowShape::Kbd), &mut fb)
        .unwrap();
    assert_eq!(pcm.len(), 1024);
    assert_eq!(fb.previous_window_shape(), WindowShape::Kbd);
}

#[test]
fn rejects_wrong_number_of_short_windows() {
    let mut fb = fixed_bank(1024).unwrap();
    let err = fb
        .process_eight_short_window_q31(&vec![vec![0; 128]; 7], WindowShape::Sine)
        .unwrap_err();
    assert_eq!(
        err,
        FilterbankError::ExpectedEightShortWindows { actual: 7 }
    );
}

#[test]
fn plans_expose_empty_and_nonempty_lengths() {
    let empty = fixed_plan(0);
    assert_eq!(empty.len(), 0);
    assert!(empty.is_empty());
    assert!(empty.process_q31(&[]).is_empty());
    let plan = fixed_plan(2);
    assert_eq!(plan.len(), 2);
    assert!(!plan.is_empty());
}

#[test]
fn constructors_and_long_paths_reject_invalid_lengths_and_sequences() {
    for length in [0, 3] {
        assert_eq!(
            fixed_bank(length),
            Err(FilterbankError::InvalidFrameLength(length))
        );
    }
    let mut fixed = fixed_bank(2).unwrap();
    assert!(matches!(
        fixed.process_only_long_sine_q31(&[0]),
        Err(FilterbankError::SpectrumLengthMismatch { .. })
    ));
    assert!(matches!(
        fixed.process_long_window_q31(&[0], WindowSequence::OnlyLong, WindowShape::Sine),
        Err(FilterbankError::SpectrumLengthMismatch { .. })
    ));
    assert_eq!(
        fixed.process_long_window_q31(&[0; 2], WindowSequence::EightShort, WindowShape::Sine),
        Err(FilterbankError::UnsupportedWindowSequence(
            WindowSequence::EightShort
        ))
    );
}

#[test]
fn all_short_window_apis_validate_frame_count_and_spectrum_width() {
    let mut small = fixed_bank(2).unwrap();
    assert_eq!(
        small.process_eight_short_window_q31(&[], WindowShape::Sine),
        Err(FilterbankError::InvalidFrameLength(2))
    );
    let mut fixed = fixed_bank(1024).unwrap();
    assert_eq!(
        fixed.process_eight_short_window_q31(&vec![vec![0; 128]; 7], WindowShape::Sine),
        Err(FilterbankError::ExpectedEightShortWindows { actual: 7 })
    );
    let mut wrong = vec![vec![0; 128]; 8];
    wrong[0].clear();
    assert!(matches!(
        fixed.process_eight_short_window_q31(&wrong, WindowShape::Sine),
        Err(FilterbankError::SpectrumLengthMismatch { actual: 0, .. })
    ));
}

#[test]
fn synthesis_dispatch_rejects_wrong_long_window_counts() {
    let ics = only_long_ics(WindowShape::Sine);
    assert_eq!(
        frame_route(ics.window_sequence, 2),
        Err(FilterbankError::ExpectedOneLongWindow { actual: 2 })
    );
    assert_eq!(
        sine_frame_route(ics.window_sequence, ics.window_shape, 2),
        Err(FilterbankError::ExpectedOneLongWindow { actual: 2 })
    );
    let mut fixed = fixed_bank(1024).unwrap();
    assert_eq!(
        synthesize_aac_lc_frame_q31(&vec![vec![0; 1024]; 2], &ics, &mut fixed),
        Err(FilterbankError::ExpectedOneLongWindow { actual: 2 })
    );
    let fixed_spectrum = FixedInverseQuantizedSpectrum {
        windows: vec![vec![0; 1024]],
        window_exponents: vec![0],
    };
    assert_eq!(
        synthesize_aac_lc_frame_from_fixed_inverse_q31(&fixed_spectrum, &ics, &mut fixed)
            .unwrap()
            .len(),
        1024
    );
}

#[test]
fn window_builders_reject_invalid_lengths_and_sequences() {
    for length in [0, 3] {
        assert_eq!(
            block_switching_window_q31(
                length,
                WindowSequence::OnlyLong,
                WindowShape::Sine,
                WindowShape::Sine,
                &window_set(length)
            ),
            Err(FilterbankError::InvalidFrameLength(length))
        );
    }
    assert_eq!(
        block_switching_window_q31(
            2,
            WindowSequence::LongStart,
            WindowShape::Sine,
            WindowShape::Sine,
            &window_set(2)
        ),
        Err(FilterbankError::InvalidFrameLength(2))
    );
    assert_eq!(
        block_switching_window_q31(
            1024,
            WindowSequence::EightShort,
            WindowShape::Sine,
            WindowShape::Sine,
            &window_set(1024)
        ),
        Err(FilterbankError::UnsupportedWindowSequence(
            WindowSequence::EightShort
        ))
    );
    for length in [0, 3, 128] {
        assert_eq!(
            window_for_shape_q31(WindowShape::Kbd, length, &shape_windows(length)),
            Err(FilterbankError::InvalidFrameLength(length))
        );
    }
    assert_eq!(window_for_shape_q31(WindowShape::Sine, 0, &shape_windows(0)), Ok(Vec::new()));
}

#[test]
fn formats_every_filterbank_error() {
    for error in [
        FilterbankError::ExpectedEightShortWindows { actual: 7 },
        FilterbankError::ExpectedOneLongWindow { actual: 2 },
        FilterbankError::InvalidFrameLength(3),
        FilterbankError::SpectrumLengthMismatch {
            expected: 4,
            actual: 3,
        },
        FilterbankError::UnsupportedWindowSequence(WindowSequence::EightShort),
        FilterbankError::UnsupportedWindowShape(WindowShape::Kbd),
    ] {
        assert!(!error.to_string().is_empty());
    }
}

#[test]
fn flush_drains_synthesis_overlap_exactly_once() {
    let mut fixed = fixed_bank(32).unwrap();
    let mut spectrum = vec![0; 32];
    spectrum[3] = 1 << 24;
    fixed.process_only_long_sine_q31(&spectrum).unwrap();
    let delayed = fixed.flush();
    assert!(delayed.iter().any(|sample| *sample != 0));
    assert_eq!(fixed.flush(), vec![0; 32]);
}

#[test]
fn rejects_unsupported_shape_or_sequence() {
    assert_eq!(
        sine_frame_route(WindowSequence::OnlyLong, WindowShape::Kbd, 1).unwrap_err(),
        FilterbankError::UnsupportedWindowShape(WindowShape::Kbd)
    );

    assert_eq!(
        long_sine_frame_route(WindowSequence::LongStart, WindowShape::Sine, 1).unwrap_err(),
        FilterbankError::UnsupportedWindowSequence(WindowSequence::LongStart)
    );
}

#[test]
fn frame_routes_follow_the_sequence() {
    assert_eq!(frame_route(WindowSequence::EightShort, 3), Ok(FrameRoute::Short));
    assert_eq!(frame_route(WindowSequence::LongStop, 1), Ok(FrameRoute::Long));
    assert_eq!(sine_frame_route(WindowSequence::EightShort, WindowShape::Sine, 8), Ok(FrameRoute::Short));
    assert_eq!(sine_frame_route(WindowSequence::OnlyLong, WindowShape::Sine, 1), Ok(FrameRoute::Long));
    assert_eq!(long_sine_frame_route(WindowSequence::OnlyLong, WindowShape::Sine, 1), Ok(FrameRoute::Long));
}

#[test]
fn imdct_multiplies_with_the_kernel() {
    let half = 0x4000_0000;
    let plan = FixedImdctPlan::new(1, vec![half, -half]);
    assert_eq!(plan.process_q31(&[0x1000_0000]), vec![0x0800_0000, -0x0800_0000]);
    assert_eq!(plan.process_q31(&[1]), vec![0, -1]);
}

#[test]
fn low_overlap_windows_have_quarter_frame_slopes() {
    let window = window_for_shape_q31(WindowShape::LowOverlap, 16, &shape_windows(16)).unwrap();
    let slope = to_q31(sine_window(4));
    assert_eq!(window.len(), 16);
    assert_eq!(window[..3], [0; 3]);
    assert_eq!(window[3..5], slope[..2]);
    assert_eq!(window[5..11], [MAXVAL_DBL; 6]);
    assert_eq!(window[11..13], slope[2..]);
    assert_eq!(window[13..], [0; 3]);
    assert_eq!(
        window_for_shape_q31(WindowShape::LowOverlap, 12, &shape_windows(12)),
        Err(FilterbankError::InvalidFrameLength(12))
    );
}

#[test]
fn a_silent_frame_gives_the_overlap_and_drains_it() {
    let mut bank = fixed_bank(16).unwrap();
    let mut spectrum = vec![0; 16];
    spectrum[1] = 1 << 28;
    bank.process_long_window_q31(&spectrum, WindowSequence::OnlyLong, WindowShape::LowOverlap)
        .unwrap();
    let overlap = bank.overlap().to_vec();
    assert!(overlap.iter().any(|sample| *sample != 0));
    let pcm = bank
        .process_long_window_q31(&[0; 16], WindowSequence::OnlyLong, WindowShape::Sine)
        .unwrap();
    assert_eq!(pcm, overlap);
    assert_eq!(bank.overlap(), [0; 16]);
}

#[test]
fn clearing_the_history_restores_a_new_bank() {
    let mut bank = fixed_bank(4).unwrap();
    let fresh = bank.clone();
    bank.process_long_window_q31(&[1 << 28; 4], WindowSequence::OnlyLong, WindowShape::LowOverlap)
        .unwrap();
    assert_ne!(bank, fresh);
    bank.clear_history();
    assert_eq!(bank, fresh);
}

#[test]
fn block_switching_windows_have_expected_regions() {
    let start = float_block_window(WindowSequence::LongStart, WindowShape::Sine, WindowShape::Kbd);
    assert_eq!(start.len(), 2048);
    assert!(start[..1024].iter().any(|value| *value > 0.0));
    assert!(start[1024..1472]
        .iter()
        .all(|value| (*value - 1.0).abs() < 1.0e-6));
    assert!(start[1600..].iter().all(|value| value.abs() < 1.0e-6));

    let stop = float_block_window(WindowSequence::LongStop, WindowShape::Kbd, WindowShape::Sine);
    assert!(stop[..448].iter().all(|value| value.abs() < 1.0e-6));
    assert!(stop[576..1024]
        .iter()
        .all(|value| (*value - 1.0).abs() < 1.0e-6));
    assert!(stop[1024..].iter().any(|value| *value > 0.0));
}

#[test]
fn aac_ld_low_overlap_window_uses_quarter_frame_slopes() {
    for frame in [480, 512] {
        let window = low_overlap_window(2 * frame, &sine_window(2 * (frame / 4)), float_levels()).unwrap();
        let slope = frame / 4;
        let zero = (frame - slope) / 2;
        assert!(window[..zero].iter().all(|&value| value == 0.0));
        assert!(window[2 * frame - zero..].iter().all(|&value| value == 0.0));
        assert!(window[zero..zero + slope]
            .windows(2)
            .all(|pair| pair[0] < pair[1]));
        assert!(window[zero + slope..2 * frame - zero - slope]
            .iter()
            .all(|&value| value == 1.0));
        assert!(window[2 * frame - zero - slope..2 * frame - zero]
            .windows(2)
            .all(|pair| pair[0] > pair[1]));
    }
}

#[test]
fn short_spectra_are_checked_in_turn() {
    assert_eq!(check_short_spectra(1024, &vec![vec![0u8; 128]; 8]), Ok(()));
    assert_eq!(
        check_short_spectra(960, &vec![vec![0u8; 128]; 8]),
        Err(FilterbankError::InvalidFrameLength(960))
    );
    let mut spectra = vec![vec![0u8; 128]; 8];
    spectra[2].truncate(5);
    spectra[6].truncate(7);
    assert_eq!(
        check_short_spectra(1024, &spectra),
        Err(FilterbankError::SpectrumLengthMismatch { expected: 128, actual: 5 })
    );
}
