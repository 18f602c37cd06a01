//! Band replication in the subband domain.

use fdk_aac::asc::LdSbrHeader;
use fdk_aac::ld_sbr::{LdSbrChannelControl, LdSbrError, LdSbrFrequencyTables, LdSbrGrid};
use fdk_aac::ld_sbr_qmf::{
    alias_degrees, alias_groups, alias_usable, analysis_layout, apply_patches, attack_carries_over, border_index, channel_settings, check_subbands, cldfb64_fixed_slot,
    cldfb64_fixed_time, closest_master, derive_limiter_borders, derive_patches, envelope_band, envelope_segments, harmonic_plan,
    inverse_filter_target, next_noise_index, next_tone_phase, patch_routes, pvc_borders, pvc_control, pvc_rate, restart_ratio, scale_control, shaped_segments,
    slot_count, slot_plan, synthesis_layout, tone_leak, tone_rotation, usac_analysis_channels, AliasDegree, ChannelSettings, EnvelopeSegment, LdSbrProcessingError,
    PatchRoute, QmfError, QmfSlot, SbrPatch, ShapedSegment, SlotPlan, ToneLeak, ToneRotation,
};
use fdk_aac::usac_sbr::InterTesEnvelope;

fn grid(borders: &[u8], noise_borders: &[u8]) -> LdSbrGrid {
    LdSbrGrid {
        transient: false,
        amp_resolution: None,
        borders: borders.to_vec(),
        frequency_resolution: vec![true; borders.len() - 1],
        transient_envelope: None,
        noise_borders: noise_borders.to_vec(),
    }
}

#[test]
fn derives_and_applies_fdk_style_patches() {
    let header = LdSbrHeader {
        start_frequency: 5,
        stop_frequency: 8,
        crossover_band: 2,
        ..LdSbrHeader::default()
    };
    let tables = LdSbrFrequencyTables::from_header(&header, 44_100).unwrap();
    let patches = derive_patches(&tables, 44_100).unwrap();
    assert!(!patches.is_empty());
    assert!(patches.windows(2).all(|pair| {
        pair[0].target_start_band + pair[0].band_count == pair[1].target_start_band
    }));
    let mut slots = vec![QmfSlot {
        real: (0..32).map(|value| value as f64).collect(),
        imaginary: (0..32).map(|value| -(value as f64)).collect(),
    }];
    apply_patches(&mut slots, &patches, 0.0).unwrap();
    let slot = &slots[0];
    for patch in patches {
        for offset in 0..patch.band_count as usize {
            assert_eq!(
                slot.real[patch.target_start_band as usize + offset],
                slot.real[patch.source_start_band as usize + offset]
            );
        }
    }
}

#[test]
fn limiter_bands_preserve_patch_boundaries_and_remove_dense_sfb_borders() {
    let tables = LdSbrFrequencyTables {
        master: vec![32, 34, 36, 40, 48],
        high: vec![32, 34, 36, 40, 48],
        low: vec![32, 34, 36, 40, 48],
        noise: vec![32, 48],
    };
    let patches = vec![
        SbrPatch {
            source_start_band: 8,
            target_start_band: 32,
            band_count: 8,
        },
        SbrPatch {
            source_start_band: 12,
            target_start_band: 40,
            band_count: 8,
        },
    ];
    assert_eq!(
        derive_limiter_borders(&tables, &patches, 0).unwrap(),
        vec![32, 48]
    );
    assert_eq!(
        derive_limiter_borders(&tables, &patches, 3).unwrap(),
        vec![32, 40, 48]
    );
}

#[test]
fn patching_rejects_invalid_frequency_and_inverse_filter_layouts() {
    let invalid_tables = LdSbrFrequencyTables {
        master: vec![4, 8],
        high: vec![4, 8],
        low: vec![4, 8],
        noise: vec![4, 8],
    };
    assert_eq!(
        derive_patches(&invalid_tables, 44_100),
        Err(LdSbrError::InvalidFrequencyRange)
    );

    let too_many_during_iteration = LdSbrFrequencyTables {
        master: (5..=64).collect(),
        high: (5..=64).collect(),
        low: vec![5, 64],
        noise: vec![5, 64],
    };
    assert_eq!(
        derive_patches(&too_many_during_iteration, 44_100),
        Err(LdSbrError::InvalidFrequencyRange)
    );

    let too_many_at_upper_border = LdSbrFrequencyTables {
        master: (5..=33).collect(),
        high: (5..=33).collect(),
        low: vec![5, 33],
        noise: vec![5, 33],
    };
    assert_eq!(
        derive_patches(&too_many_at_upper_border, 44_100),
        Err(LdSbrError::InvalidFrequencyRange)
    );

    let invalid_patch = SbrPatch {
        source_start_band: 32,
        target_start_band: 63,
        band_count: 2,
    };
    let mut slots = vec![QmfSlot {
        real: vec![0.0; 32],
        imaginary: vec![0.0; 32],
    }];
    assert_eq!(
        apply_patches(&mut slots, &[invalid_patch], 0.0),
        Err(QmfError::InvalidPatchBand {
            source: 32,
            target: 63,
        })
    );
    assert_eq!(
        patch_routes(&[], &[32, 64], 0),
        Err(QmfError::InverseFilteringLayoutMismatch)
    );
    assert_eq!(
        patch_routes(&[invalid_patch], &[32, 64], 1),
        Err(QmfError::InvalidPatchBand {
            source: 32,
            target: 63,
        })
    );
}

#[test]
fn envelope_adjustment_rejects_every_malformed_layout() {
    let tables = LdSbrFrequencyTables {
        master: vec![32, 34, 36],
        high: vec![32, 34, 36],
        low: vec![32, 36],
        noise: vec![32, 36],
    };
    let control = grid(&[0, 2], &[0, 2]);
    assert_eq!(
        envelope_segments(&control, &tables, &[], 0, 2),
        Err(QmfError::EnvelopeLayoutMismatch)
    );
    assert_eq!(
        envelope_segments(&control, &tables, &[2], 4, 2),
        Err(QmfError::EnvelopeLayoutMismatch)
    );
    let mut invalid_slots = control.clone();
    invalid_slots.borders = vec![0, 3];
    assert_eq!(
        envelope_segments(&invalid_slots, &tables, &[2], 0, 2),
        Err(QmfError::EnvelopeLayoutMismatch)
    );
    let mut low_resolution = control.clone();
    low_resolution.frequency_resolution = vec![false];
    assert_eq!(
        envelope_segments(&low_resolution, &tables, &[2], 0, 2),
        Err(QmfError::EnvelopeLayoutMismatch)
    );
    assert_eq!(
        derive_limiter_borders(&tables, &[], 4),
        Err(QmfError::EnvelopeLayoutMismatch)
    );
    assert_eq!(
        envelope_band(&control, &tables, 3, 32),
        Err(QmfError::EnvelopeLayoutMismatch)
    );
    assert_eq!(envelope_band(&low_resolution, &tables, 0, 32), Ok((0, 0)));
    assert_eq!(
        envelope_segments(&control, &tables, &[2], 3, 2),
        Ok(vec![EnvelopeSegment {
            start_slot: 0,
            stop_slot: 2,
            high_resolution: true,
        }])
    );
    assert_eq!(inverse_filter_target(1, 1), 75);
}

#[test]
fn supports_64_band_analysis_state_layout() {
    let layout = analysis_layout(64, false).unwrap();
    assert_eq!(layout.state_length, 640);
    assert_eq!(slot_count(128, layout.channels), Ok(2));
}

#[test]
fn usac_analysis_supports_sixteen_and_twenty_four_band_qmf() {
    for channels in [16, 24] {
        let layout = analysis_layout(channels, false).unwrap();
        assert_eq!(layout.channels, channels);
        assert_eq!(slot_count(channels * 2, channels), Ok(2));
    }
    assert_eq!(usac_analysis_channels(1), Ok(16));
    assert_eq!(usac_analysis_channels(2), Ok(24));
    assert_eq!(usac_analysis_channels(3), Ok(32));
    assert!(usac_analysis_channels(0).is_err());
}

#[test]
fn cldfb_analysis_synthesis_and_constructor_errors_are_total() {
    assert_eq!(
        LdSbrProcessingError::from(LdSbrError::UnexpectedEof),
        LdSbrProcessingError::Syntax(LdSbrError::UnexpectedEof)
    );
    assert_eq!(
        LdSbrProcessingError::from(QmfError::InvalidTimeStep(0)),
        LdSbrProcessingError::Qmf(QmfError::InvalidTimeStep(0))
    );
    assert_eq!(
        analysis_layout(20, false).unwrap_err(),
        QmfError::UnsupportedChannelCount(20)
    );
    assert_eq!(
        synthesis_layout(16, false).unwrap_err(),
        QmfError::UnsupportedChannelCount(16)
    );
    assert_eq!(
        synthesis_layout(16, true).unwrap_err(),
        QmfError::UnsupportedChannelCount(16)
    );
    assert_eq!(slot_count(1, 32).unwrap_err(), QmfError::InvalidSampleCount(1));
    assert_eq!(
        check_subbands(32, false, 31, 32).unwrap_err(),
        QmfError::InvalidSubbandCount {
            expected: 32,
            actual: 31,
        }
    );
    assert_eq!(analysis_layout(16, true).unwrap_err(), QmfError::UnsupportedChannelCount(16));
    assert_eq!(slot_count(64, 32), Ok(2));
    assert_eq!(check_subbands(64, false, 64, 64), Ok(()));
    assert_eq!(check_subbands(32, true, 32, 0), Ok(()));
    assert_eq!(synthesis_layout(32, false).unwrap().stride, 2);
    assert_eq!(synthesis_layout(64, true).unwrap().stride, 1);
}

#[test]
fn patches_fill_the_range_above_the_crossover() {
    for (start_frequency, stop_frequency) in [(5, 8), (3, 5), (7, 9)] {
        let header = LdSbrHeader {
            start_frequency,
            stop_frequency,
            ..LdSbrHeader::default()
        };
        let tables = LdSbrFrequencyTables::from_header(&header, 44_100).unwrap();
        let patches = derive_patches(&tables, 44_100).unwrap();
        let mut next = tables.high[0];
        for patch in &patches {
            assert_eq!(patch.target_start_band, next);
            assert!(patch.band_count > 0);
            assert!(patch.source_start_band + patch.band_count <= tables.high[0]);
            next += patch.band_count;
        }
        assert!(next <= tables.high[tables.high.len() - 1]);
    }
}

#[test]
fn master_borders_are_found_on_either_side() {
    let master = [10, 13, 17, 20];
    assert_eq!(closest_master(&master, 14, true), 17);
    assert_eq!(closest_master(&master, 14, false), 13);
    assert_eq!(closest_master(&master, 25, true), 20);
    assert_eq!(closest_master(&master, 5, false), 10);
}

#[test]
fn routes_name_the_noise_band_of_each_target() {
    let patch = SbrPatch {
        source_start_band: 4,
        target_start_band: 10,
        band_count: 3,
    };
    let routes = patch_routes(&[patch], &[10, 12, 20], 2).unwrap();
    let parts: Vec<(usize, usize, usize)> = routes
        .iter()
        .map(|route: &PatchRoute| (route.source, route.target, route.noise_band))
        .collect();
    assert_eq!(parts, [(4, 10, 0), (5, 11, 0), (6, 12, 1)]);
    let mut slots = vec![QmfSlot {
        real: (0..20).collect::<Vec<i32>>(),
        imaginary: vec![7; 64],
    }];
    assert_eq!(apply_patches(&mut slots, &[patch], 0), Ok(()));
    assert_eq!(slots[0].real.len(), 64);
    assert_eq!(slots[0].real[9..14], [9, 4, 5, 6, 13]);
    assert_eq!(slots[0].real[20], 0);
    assert_eq!(apply_patches(&mut Vec::<QmfSlot<u8>>::new(), &[patch], 0), Ok(()));
}

#[test]
fn filter_strength_changes_in_steps() {
    assert_eq!(inverse_filter_target(0, 0), 0);
    assert_eq!(inverse_filter_target(0, 1), 60);
    assert_eq!(inverse_filter_target(1, 0), 60);
    assert_eq!(inverse_filter_target(2, 0), 90);
    assert_eq!(inverse_filter_target(3, 3), 98);
}

#[test]
fn borders_and_slots_are_located() {
    assert_eq!(border_index(&[0, 3, 8], 2), Some(0));
    assert_eq!(border_index(&[0, 3, 8], 3), Some(1));
    assert_eq!(border_index(&[0, 3, 8], 8), None);
    let mut grid = grid(&[0, 4, 16], &[0, 16]);
    grid.transient_envelope = Some(1);
    assert_eq!(
        slot_plan(&grid, true, 3),
        Ok(SlotPlan {
            envelope: 0,
            noise_envelope: 0,
            relative_slot: 3,
            attack: false,
            abrupt: true,
            last: true,
        })
    );
    assert_eq!(
        slot_plan(&grid, true, 4),
        Ok(SlotPlan {
            envelope: 1,
            noise_envelope: 0,
            relative_slot: 0,
            attack: true,
            abrupt: true,
            last: false,
        })
    );
    assert_eq!(slot_plan(&grid, false, 16), Err(QmfError::EnvelopeLayoutMismatch));
    assert!(!attack_carries_over(&grid));
    grid.transient_envelope = Some(2);
    assert!(attack_carries_over(&grid));
}

#[test]
fn aliased_neighbours_are_grouped() {
    // Bands 1 and 2 alias with the ones above them.
    assert_eq!(
        alias_groups(&[false, true, true, false, false], &[true; 5]),
        [(1, 4)]
    );
    assert_eq!(alias_groups(&[false; 4], &[true; 4]), vec![]);
    assert!(alias_usable(&[10, 12, 14], &[false, true], 11));
    assert!(!alias_usable(&[10, 12, 14], &[false, true], 13));
    assert!(alias_usable(&[10, 12, 14], &[false, true], 20));
}

#[test]
fn tones_sound_in_the_middle_of_their_band() {
    let mut previous = [false; 64];
    previous[33] = true;
    let plan = harmonic_plan(&[true, false, true], &[32, 34, 36, 40], &previous, Some(1));
    assert!(plan.current[33] && plan.current[38]);
    assert_eq!(plan.current.iter().filter(|tone| **tone).count(), 2);
    assert_eq!(plan.starts[33], Some(0));
    assert_eq!(plan.starts[38], Some(1));
    assert_eq!(plan.band_starts[32], Some(0));
    assert_eq!(plan.band_starts[39], Some(1));
    assert_eq!(plan.band_starts[35], None);
}

#[test]
fn a_tone_turns_by_a_quarter_each_slot() {
    let mut phase = 7;
    for band in [40, 41] {
        for _ in 0..4 {
            let here = tone_rotation(phase, band);
            let later = tone_rotation(next_tone_phase(next_tone_phase(phase)), band);
            assert_eq!(here.imaginary, later.imaginary);
            assert_ne!(here.negative, later.negative);
            phase = next_tone_phase(phase);
            assert!(phase < 4);
        }
    }
    assert_eq!(
        tone_rotation(1, 41),
        ToneRotation {
            imaginary: true,
            negative: true,
        }
    );
    assert_eq!(next_noise_index(511), 0);
    assert_eq!(next_noise_index(3), 4);
}

#[test]
fn grids_scale_to_slots() {
    let control = LdSbrChannelControl {
        grid: grid(&[0, 3, 8], &[0, 8]),
        envelope_time_domain: vec![false, true],
        noise_time_domain: vec![false],
    };
    let scaled = scale_control(&control, 2).unwrap();
    assert_eq!(scaled.grid.borders, [0, 6, 16]);
    assert_eq!(scaled.grid.noise_borders, [0, 16]);
    assert_eq!(scaled.envelope_time_domain, [false, true]);
    assert_eq!(scale_control(&control, 1), Ok(control.clone()));
    assert_eq!(scale_control(&control, 3), Err(QmfError::InvalidTimeStep(3)));
    assert_eq!(pvc_rate(8), 1);
    assert_eq!(pvc_rate(64), 4);
    assert_eq!(pvc_borders(&[-2, 0, 7, 16], 2, 30), [0, 0, 14, 30]);
    assert_eq!(pvc_borders(&[100], 3, 1000), [44]);
}

#[test]
fn the_analysis_filter_sums_five_taps() {
    let mut prototype = [0; 640];
    let mut states = [0; 640];
    assert_eq!(cldfb64_fixed_time(&prototype, &states), [0; 128]);
    // The first tap of the last output.
    prototype[0] = 0x4000;
    states[0] = 0x0100;
    let time = cldfb64_fixed_time(&prototype, &states);
    assert_eq!(time[127], 0x0080_0000);
    assert!(time[..127].iter().all(|value| *value == 0));
    let silence = cldfb64_fixed_slot(&[0; 128], &[0x7fff; 64], &[0x7fff; 64]);
    assert_eq!(silence, ([0; 64], [0; 64]));
    let (real, imaginary) = cldfb64_fixed_slot(&time, &[0x4000; 64], &[0; 64]);
    assert!(real.iter().any(|value| *value != 0));
    assert!(imaginary.iter().any(|value| *value != 0));
    // Equal halves cancel out in front of the cosine transform.
    let (real, imaginary) = cldfb64_fixed_slot(&[i32::MIN; 128], &[0x7fff; 64], &[0; 64]);
    assert_eq!(real, [0; 64]);
    assert!(imaginary.iter().any(|value| *value != 0));
}

#[test]
fn reflections_decide_the_degree_of_aliasing() {
    assert_eq!(
        alias_degrees(&[1, -1, -1, 0, -1, 0]),
        [
            AliasDegree::Nothing,
            AliasDegree::FromOwn,
            AliasDegree::Full,
            AliasDegree::Nothing,
            AliasDegree::Nothing,
            AliasDegree::Nothing,
        ]
    );
    assert_eq!(alias_degrees(&[1, 0, -1])[2], AliasDegree::FromBelow);
    assert_eq!(alias_degrees(&[0, -1, 0, 1])[3], AliasDegree::FromBelow);
    assert_eq!(alias_degrees(&[0, 0, 1, 1])[3], AliasDegree::Full);
}

#[test]
fn tones_leak_with_opposite_signs() {
    assert_eq!(tone_leak(0, 40, false), None);
    assert_eq!(tone_leak(2, 41, true), None);
    let leak = |below_negative: bool| {
        Some(ToneLeak {
            below_negative,
            above_negative: !below_negative,
        })
    };
    assert_eq!(tone_leak(1, 41, false), leak(false));
    assert_eq!(tone_leak(1, 40, false), leak(true));
    assert_eq!(tone_leak(3, 40, false), leak(false));
    assert_eq!(tone_leak(1, 40, true), leak(false));
    assert_eq!(tone_leak(3, 41, true), leak(true));
}

#[test]
fn settings_have_defaults() {
    let mut header = LdSbrHeader::default();
    header.limiter_bands = None;
    header.limiter_gains = None;
    header.smoothing_mode = None;
    assert_eq!(
        channel_settings(&header, true, false),
        ChannelSettings {
            limiter_bands: 2,
            limiter_gains: 2,
            smoothing: false,
            energy_shift: 0,
        }
    );
    header.limiter_bands = Some(1);
    header.limiter_gains = Some(3);
    header.smoothing_mode = Some(false);
    assert_eq!(
        channel_settings(&header, false, true),
        ChannelSettings {
            limiter_bands: 1,
            limiter_gains: 3,
            smoothing: true,
            energy_shift: 6,
        }
    );
    assert_eq!(channel_settings(&header, false, false).energy_shift, 4);
}

#[test]
fn restarting_keeps_the_number_of_bands() {
    for channels in [16, 24] {
        assert_eq!(usac_analysis_channels(restart_ratio(channels).unwrap()), Ok(channels));
    }
    assert_eq!(restart_ratio(32), None);
}

#[test]
fn predicted_envelopes_have_a_plain_grid() {
    let control = pvc_control(true, &[0, 7, 16], &[0, 16], 2, 32);
    assert_eq!(control.grid.borders, [0, 14, 32]);
    assert_eq!(control.grid.noise_borders, [0, 32]);
    assert_eq!(control.grid.frequency_resolution, [true, true]);
    assert_eq!(control.grid.amp_resolution, Some(true));
    assert_eq!(control.grid.transient_envelope, None);
    assert_eq!(control.envelope_time_domain, [false, false]);
    assert_eq!(control.noise_time_domain, [false]);
}

#[test]
fn only_active_envelopes_are_shaped() {
    let shaping = [
        InterTesEnvelope { active: true, mode: 2 },
        InterTesEnvelope { active: false, mode: 1 },
        InterTesEnvelope { active: true, mode: 0 },
    ];
    assert_eq!(
        shaped_segments(&[0, 3, 8, 16], &shaping, 2),
        [
            ShapedSegment {
                start_slot: 0,
                stop_slot: 6,
                mode: 2,
            },
            ShapedSegment {
                start_slot: 16,
                stop_slot: 32,
                mode: 0,
            },
        ]
    );
}
